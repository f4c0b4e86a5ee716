//! The search ranker: a fuzzy score for each record against a query, and
//! the records that match, best first.

use vstd::prelude::*;
use vstd::string::StrSliceExecFns;

use crate::app_discovery::{AppInfo, AppInfoView};
use crate::text::{chars_of, has_ascii_upper, is_ascii_upper, lowercase, to_lowercase};

verus! {

/// The longest text, in characters, that is handed to the matcher.
pub const MAX_SCORED_CHARS: usize = 67000000;

/// The score of a match in a text that is too long for the matcher.
pub const LOWEST_SCORE: i64 = i64::MIN;

/// The score that `SkimMatcherV2::default()` of the `fuzzy-matcher` crate
/// gives to `choice` for `pattern`; `None` where it finds no match.
pub uninterp spec fn skim_score(choice: Seq<char>, pattern: Seq<char>) -> Option<i64>;

/// `a` and `b` are the same character, or the same letter of `A` to `Z` in
/// its two cases.
pub open spec fn same_ignoring_ascii_case(a: char, b: char) -> bool {
    ||| a == b
    ||| is_ascii_upper(a) && b as u32 == a as u32 + 32
    ||| is_ascii_upper(b) && a as u32 == b as u32 + 32
}

/// A character of the choice answers a character of the pattern.
pub open spec fn chars_match(choice: char, pattern: char, case_sensitive: bool) -> bool {
    if case_sensitive {
        choice == pattern
    } else {
        same_ignoring_ascii_case(choice, pattern)
    }
}

/// The characters of `pattern` are found in `choice` in their order, each
/// at the first place after the one before it.
pub open spec fn matches_in_order(
    choice: Seq<char>,
    pattern: Seq<char>,
    case_sensitive: bool,
) -> bool
    decreases choice.len(),
{
    if pattern.len() == 0 {
        true
    } else if choice.len() == 0 {
        false
    } else if chars_match(choice[0], pattern[0], case_sensitive) {
        matches_in_order(choice.drop_first(), pattern.drop_first(), case_sensitive)
    } else {
        matches_in_order(choice.drop_first(), pattern, case_sensitive)
    }
}

/// The matcher finds `pattern` in `choice`. It tells the two cases of a
/// letter apart only where the pattern holds a letter of `A` to `Z`.
pub open spec fn skim_accepts(choice: Seq<char>, pattern: Seq<char>) -> bool {
    matches_in_order(choice, pattern, has_ascii_upper(pattern))
}

/// Calls `FuzzyMatcher::fuzzy_match` on a fresh `SkimMatcherV2::default()`.
/// The matcher first walks `choice` once for the characters of `pattern` in
/// their order and gives up where one is missing: that much is stated
/// (`skim_accepts`). The score of a match is not described here, only named:
/// it is `skim_score` of the two texts.
///
/// The bound on the lengths is what the matcher's arithmetic takes. It keeps
/// one row of sums for each character of the pattern, in 32 bits. A sum in
/// the row of the n-th character is at most 32 n: it adds a match of at most
/// 16 and a bonus of at most 16 to a sum of the row before, or carries a sum
/// of its own row on with a penalty. No sum is below -32768 less the length
/// of the choice and 5: a row starts from -32768 or from -1, and a gap costs
/// 1 for each character and 3 more to open. With at most 67,000,000
/// characters in each text, 32 n stays below 2,144,000,001, inside 32 bits.
#[verifier::external_body]
pub(crate) fn skim_fuzzy_match(choice: &str, pattern: &str) -> (score: Option<i64>)
    requires
        choice@.len() <= MAX_SCORED_CHARS,
        pattern@.len() <= MAX_SCORED_CHARS,
    ensures
        score == skim_score(choice@, pattern@),
        score is Some <==> skim_accepts(choice@, pattern@),
{
    fuzzy_matcher::FuzzyMatcher::fuzzy_match(
        &fuzzy_matcher::skim::SkimMatcherV2::default(),
        choice,
        pattern,
    )
}

/// The score of `choice` for `pattern`, both as they are: the matcher's
/// score, and for a text too long for the matcher the lowest score where
/// the text holds the pattern.
pub open spec fn match_score(choice: Seq<char>, pattern: Seq<char>) -> Option<i64> {
    if choice.len() <= MAX_SCORED_CHARS && pattern.len() <= MAX_SCORED_CHARS {
        skim_score(choice, pattern)
    } else if skim_accepts(choice, pattern) {
        Some(LOWEST_SCORE)
    } else {
        None
    }
}

/// Half of a score, rounded towards zero.
pub open spec fn halved(score: i64) -> i64 {
    if score >= 0 {
        (score / 2) as i64
    } else {
        (-((-score) / 2)) as i64
    }
}

/// The score of a record from the score of its name and the score of its
/// path: the path counts half, the better of the two counts, and a record
/// with neither has none.
pub open spec fn combined(name: Option<i64>, path: Option<i64>) -> Option<i64> {
    match (name, path) {
        (Some(n), Some(p)) => Some(
            if n >= halved(p) {
                n
            } else {
                halved(p)
            },
        ),
        (Some(n), None) => Some(n),
        (None, Some(p)) => Some(halved(p)),
        (None, None) => None,
    }
}

/// The score of a record for a query. Case is ignored: the name, the path
/// and the query are scored in lower case.
pub open spec fn candidate_score(app: AppInfoView, query: Seq<char>) -> Option<i64> {
    combined(
        match_score(lowercase(app.name), lowercase(query)),
        match_score(lowercase(app.path), lowercase(query)),
    )
}

/// Whether a character of the choice answers a character of the pattern.
fn answers(choice: char, pattern: char, case_sensitive: bool) -> (same: bool)
    ensures
        same == chars_match(choice, pattern, case_sensitive),
{
    if choice == pattern {
        return true;
    }
    if case_sensitive {
        return false;
    }
    let c: u32 = choice as u32;
    let p: u32 = pattern as u32;
    (65 <= c && c <= 90 && p == c + 32) || (65 <= p && p <= 90 && c == p + 32)
}

/// Whether the matcher finds `pattern` in `choice`, for texts of any
/// length.
pub fn accepts(choice: &str, pattern: &str) -> (found: bool)
    ensures
        found == skim_accepts(choice@, pattern@),
{
    let wanted = chars_of(pattern);
    let mut case_sensitive = false;
    for i in 0..wanted.len()
        invariant
            wanted@ == pattern@,
            case_sensitive == has_ascii_upper(wanted@.take(i as int)),
    {
        let code: u32 = wanted[i] as u32;
        proof {
            let before = wanted@.take(i as int);
            let after = wanted@.take(i + 1);
            assert(after[i as int] == wanted@[i as int]);
            if has_ascii_upper(before) {
                let k = choose|k: int| 0 <= k < before.len() && is_ascii_upper(before[k]);
                assert(is_ascii_upper(after[k]));
            }
            if has_ascii_upper(after) {
                let k = choose|k: int| 0 <= k < after.len() && is_ascii_upper(after[k]);
                if k < i {
                    assert(is_ascii_upper(before[k]));
                }
            }
        }
        if 65 <= code && code <= 90 {
            case_sensitive = true;
        }
    }
    assert(wanted@.take(wanted.len() as int) =~= wanted@);
    let mut next: usize = 0;
    assert(choice@.skip(0) =~= choice@ && wanted@.skip(0) =~= wanted@);
    for c in it: choice.chars()
        invariant
            it.seq() == choice@,
            next <= wanted.len(),
            matches_in_order(choice@, wanted@, case_sensitive) == matches_in_order(
                choice@.skip(it.index() as int),
                wanted@.skip(next as int),
                case_sensitive,
            ),
    {
        proof {
            let left = choice@.skip(it.index() as int);
            assert(left.drop_first() =~= choice@.skip(it.index() + 1));
            assert(left[0] == c);
            if next < wanted.len() {
                let open = wanted@.skip(next as int);
                assert(open.drop_first() =~= wanted@.skip(next + 1));
                assert(open[0] == wanted@[next as int]);
            }
        }
        if next < wanted.len() && answers(c, wanted[next], case_sensitive) {
            next += 1;
        }
    }
    next == wanted.len()
}

/// The score of `choice` for `pattern`.
pub fn fuzzy_score(choice: &str, pattern: &str) -> (score: Option<i64>)
    ensures
        score == match_score(choice@, pattern@),
        score is Some <==> skim_accepts(choice@, pattern@),
{
    if choice.unicode_len() <= MAX_SCORED_CHARS && pattern.unicode_len() <= MAX_SCORED_CHARS {
        skim_fuzzy_match(choice, pattern)
    } else if accepts(choice, pattern) {
        Some(LOWEST_SCORE)
    } else {
        None
    }
}

/// Half of a score, rounded towards zero.
pub fn halve(score: i64) -> (half: i64)
    ensures
        half == halved(score),
{
    score / 2
}

/// The score of a record from the score of its name and the score of its
/// path.
pub fn combine_scores(name: Option<i64>, path: Option<i64>) -> (score: Option<i64>)
    ensures
        score == combined(name, path),
{
    match (name, path) {
        (Some(n), Some(p)) => {
            let half = halve(p);
            if n >= half {
                Some(n)
            } else {
                Some(half)
            }
        },
        (Some(n), None) => Some(n),
        (None, Some(p)) => Some(halve(p)),
        (None, None) => None,
    }
}

/// `places` shows where the characters of `query` stand in `text`, in
/// their order.
pub open spec fn is_embedding(places: Seq<int>, text: Seq<char>, query: Seq<char>) -> bool {
    &&& places.len() == query.len()
    &&& forall|k: int|
        0 <= k < places.len() ==> 0 <= #[trigger] places[k] < text.len() && text[places[k]]
            == query[k]
    &&& forall|j: int, k: int| 0 <= j < k < places.len() ==> places[j] < places[k]
}

/// The characters of `query` stand in `text` in their order, not
/// necessarily side by side.
pub open spec fn is_subsequence(query: Seq<char>, text: Seq<char>) -> bool {
    exists|places: Seq<int>| is_embedding(places, text, query)
}

/// `text` holds the characters of `query` as a subsequence, case ignored:
/// the characters of the query in lower case stand, in their order, in the
/// text in lower case.
pub open spec fn found_in(text: Seq<char>, query: Seq<char>) -> bool {
    is_subsequence(lowercase(query), lowercase(text))
}

/// The record matches the query: its name or its path holds the query as a
/// subsequence, case ignored.
pub open spec fn is_hit(app: AppInfoView, query: Seq<char>) -> bool {
    found_in(app.name, query) || found_in(app.path, query)
}

/// A text without capital letters keeps none when its first character goes.
proof fn lemma_tail_has_no_upper(text: Seq<char>)
    requires
        text.len() > 0,
        !has_ascii_upper(text),
    ensures
        !has_ascii_upper(text.drop_first()),
        !is_ascii_upper(text[0]),
{
    if has_ascii_upper(text.drop_first()) {
        let k = choose|k: int|
            0 <= k < text.drop_first().len() && is_ascii_upper(text.drop_first()[k]);
        assert(is_ascii_upper(text[k + 1]));
    }
    if is_ascii_upper(text[0]) {
        assert(has_ascii_upper(text));
    }
}

/// What the matcher accepts of texts without capital letters is a
/// subsequence, letter for letter.
pub proof fn lemma_match_is_subsequence(choice: Seq<char>, pattern: Seq<char>, case_sensitive: bool)
    requires
        matches_in_order(choice, pattern, case_sensitive),
        !has_ascii_upper(choice),
        !has_ascii_upper(pattern),
    ensures
        is_subsequence(pattern, choice),
    decreases choice.len(),
{
    if pattern.len() == 0 {
        assert(is_embedding(Seq::<int>::empty(), choice, pattern));
    } else {
        let rest = choice.drop_first();
        lemma_tail_has_no_upper(choice);
        lemma_tail_has_no_upper(pattern);
        if chars_match(choice[0], pattern[0], case_sensitive) {
            assert(choice[0] == pattern[0]);
            lemma_match_is_subsequence(rest, pattern.drop_first(), case_sensitive);
            let inner = choose|places: Seq<int>| is_embedding(places, rest, pattern.drop_first());
            let places = Seq::new(
                pattern.len(),
                |k: int|
                    if k == 0 {
                        0
                    } else {
                        inner[k - 1] + 1
                    },
            );
            assert forall|k: int| 0 <= k < places.len() implies 0 <= #[trigger] places[k]
                < choice.len() && choice[places[k]] == pattern[k] by {
                if k > 0 {
                    assert(0 <= inner[k - 1] < rest.len());
                    assert(rest[inner[k - 1]] == choice[inner[k - 1] + 1]);
                    assert(pattern.drop_first()[k - 1] == pattern[k]);
                }
            }
            assert forall|j: int, k: int| 0 <= j < k < places.len() implies places[j]
                < places[k] by {
                assert(0 <= inner[k - 1]);
                if j > 0 {
                    assert(inner[j - 1] < inner[k - 1]);
                }
            }
            assert(is_embedding(places, choice, pattern));
        } else {
            lemma_match_is_subsequence(rest, pattern, case_sensitive);
            let inner = choose|places: Seq<int>| is_embedding(places, rest, pattern);
            let places = Seq::new(pattern.len(), |k: int| inner[k] + 1);
            assert forall|k: int| 0 <= k < places.len() implies 0 <= #[trigger] places[k]
                < choice.len() && choice[places[k]] == pattern[k] by {
                assert(0 <= inner[k] < rest.len());
                assert(rest[inner[k]] == choice[inner[k] + 1]);
            }
            assert forall|j: int, k: int| 0 <= j < k < places.len() implies places[j]
                < places[k] by {
                assert(inner[j] < inner[k]);
            }
            assert(is_embedding(places, choice, pattern));
        }
    }
}

/// A subsequence is what the matcher accepts, whether or not it tells the
/// two cases of a letter apart.
pub proof fn lemma_subsequence_is_matched(
    choice: Seq<char>,
    pattern: Seq<char>,
    case_sensitive: bool,
)
    requires
        is_subsequence(pattern, choice),
    ensures
        matches_in_order(choice, pattern, case_sensitive),
    decreases choice.len(),
{
    if pattern.len() > 0 {
        let places = choose|places: Seq<int>| is_embedding(places, choice, pattern);
        assert(0 <= places[0] < choice.len());
        let rest = choice.drop_first();
        if chars_match(choice[0], pattern[0], case_sensitive) {
            let inner = Seq::new((pattern.len() - 1) as nat, |k: int| places[k + 1] - 1);
            assert forall|k: int| 0 <= k < inner.len() implies 0 <= #[trigger] inner[k] < rest.len()
                && rest[inner[k]] == pattern.drop_first()[k] by {
                assert(places[0] < places[k + 1]);
                assert(0 <= places[k + 1] < choice.len());
                assert(rest[places[k + 1] - 1] == choice[places[k + 1]]);
                assert(pattern.drop_first()[k] == pattern[k + 1]);
            }
            assert forall|j: int, k: int| 0 <= j < k < inner.len() implies inner[j] < inner[k] by {
                assert(places[j + 1] < places[k + 1]);
            }
            assert(is_embedding(inner, rest, pattern.drop_first()));
            lemma_subsequence_is_matched(rest, pattern.drop_first(), case_sensitive);
        } else {
            let inner = Seq::new(pattern.len(), |k: int| places[k] - 1);
            assert forall|k: int| 0 <= k < inner.len() implies 0 <= #[trigger] inner[k] < rest.len()
                && rest[inner[k]] == pattern[k] by {
                assert(0 <= places[k] < choice.len());
                assert(places[k] != 0) by {
                    if k > 0 {
                        assert(places[0] < places[k]);
                    }
                }
                assert(rest[places[k] - 1] == choice[places[k]]);
            }
            assert forall|j: int, k: int| 0 <= j < k < inner.len() implies inner[j] < inner[k] by {
                assert(places[j] < places[k]);
            }
            assert(is_embedding(inner, rest, pattern));
            lemma_subsequence_is_matched(rest, pattern, case_sensitive);
        }
    }
}

/// Of texts without capital letters the matcher accepts exactly those that
/// hold the pattern as a subsequence.
pub proof fn lemma_accepts_subsequences(choice: Seq<char>, pattern: Seq<char>)
    requires
        !has_ascii_upper(choice),
        !has_ascii_upper(pattern),
    ensures
        skim_accepts(choice, pattern) <==> is_subsequence(pattern, choice),
{
    if skim_accepts(choice, pattern) {
        lemma_match_is_subsequence(choice, pattern, has_ascii_upper(pattern));
    }
    if is_subsequence(pattern, choice) {
        lemma_subsequence_is_matched(choice, pattern, has_ascii_upper(pattern));
    }
}

/// The record at `a` comes before the record at `b`: it has the higher
/// score, or the same score and the earlier place in the registry.
pub open spec fn precedes(scores: Seq<Option<i64>>, a: int, b: int) -> bool {
    scores[a]->0 > scores[b]->0 || (scores[a]->0 == scores[b]->0 && a < b)
}

/// `order` ranks the first `n` records: it lists the places of those that
/// have a score, each once, best first.
pub open spec fn ranks_first(order: Seq<usize>, scores: Seq<Option<i64>>, n: int) -> bool {
    &&& forall|k: int|
        0 <= k < order.len() ==> #[trigger] order[k] < n && scores[order[k] as int] is Some
    &&& forall|i: int|
        0 <= i < n && #[trigger] scores[i] is Some ==> exists|k: int|
            0 <= k < order.len() && #[trigger] order[k] == i
    &&& forall|a: int, b: int|
        0 <= a < b < order.len() ==> precedes(
            scores,
            #[trigger] order[a] as int,
            #[trigger] order[b] as int,
        )
}

/// `order` ranks the records with the scores `scores`: it lists the places
/// of all records that have a score, by descending score, and records with
/// one score in the order of the registry.
pub open spec fn is_ranking(order: Seq<usize>, scores: Seq<Option<i64>>) -> bool {
    ranks_first(order, scores, scores.len() as int)
}

/// The ranking of the records with the scores `scores`.
pub open spec fn ranking(scores: Seq<Option<i64>>) -> Seq<usize> {
    choose|order: Seq<usize>| is_ranking(order, scores)
}

/// Two rankings of the same scores agree on their first `k` places.
proof fn lemma_rankings_agree(
    first: Seq<usize>,
    second: Seq<usize>,
    scores: Seq<Option<i64>>,
    k: int,
)
    requires
        is_ranking(first, scores),
        is_ranking(second, scores),
        0 <= k <= first.len(),
    ensures
        k <= second.len(),
        forall|i: int| 0 <= i < k ==> first[i] == second[i],
    decreases k,
{
    if k > 0 {
        lemma_rankings_agree(first, second, scores, k - 1);
        let x = first[k - 1];
        assert(scores[x as int] is Some);
        let j = choose|j: int| 0 <= j < second.len() && second[j] == x;
        if j < k - 1 {
            assert(first[j] == second[j]);
            assert(precedes(scores, first[j] as int, first[k - 1] as int));
            assert(false);
        }
        if j > k - 1 {
            let y = second[k - 1];
            assert(precedes(scores, second[k - 1] as int, second[j] as int));
            assert(scores[y as int] is Some);
            let i = choose|i: int| 0 <= i < first.len() && first[i] == y;
            if i < k - 1 {
                assert(first[i] == second[i]);
                assert(precedes(scores, second[i] as int, second[k - 1] as int));
                assert(false);
            }
            if i > k - 1 {
                assert(precedes(scores, first[k - 1] as int, first[i] as int));
                assert(false);
            }
            assert(false);
        }
    }
}

/// Stable ordering: the same scores have one ranking only.
pub proof fn lemma_ranking_unique(first: Seq<usize>, second: Seq<usize>, scores: Seq<Option<i64>>)
    requires
        is_ranking(first, scores),
        is_ranking(second, scores),
    ensures
        first == second,
{
    lemma_rankings_agree(first, second, scores, first.len() as int);
    lemma_rankings_agree(second, first, scores, second.len() as int);
    assert(first =~= second);
}

/// The place in `order` for a new record with the score `score`: behind all
/// records that score as much or more, before all that score less.
fn place_for(order: &Vec<usize>, scores: &Vec<Option<i64>>, score: i64) -> (place: usize)
    requires
        forall|k: int|
            0 <= k < order.len() ==> #[trigger] order[k] < scores.len()
                && scores[order[k] as int] is Some,
        forall|a: int, b: int|
            0 <= a < b < order.len() ==> scores[#[trigger] order[a] as int]->0
                >= scores[#[trigger] order[b] as int]->0,
    ensures
        place <= order.len(),
        forall|k: int| 0 <= k < place ==> scores[#[trigger] order[k] as int]->0 >= score,
        forall|k: int| place <= k < order.len() ==> scores[#[trigger] order[k] as int]->0 < score,
{
    let mut low: usize = 0;
    let mut high: usize = order.len();
    while low < high
        invariant
            low <= high <= order.len(),
            forall|k: int|
                0 <= k < order.len() ==> #[trigger] order[k] < scores.len()
                    && scores[order[k] as int] is Some,
            forall|a: int, b: int|
                0 <= a < b < order.len() ==> scores[#[trigger] order[a] as int]->0
                    >= scores[#[trigger] order[b] as int]->0,
            forall|k: int| 0 <= k < low ==> scores[#[trigger] order[k] as int]->0 >= score,
            forall|k: int|
                high <= k < order.len() ==> scores[#[trigger] order[k] as int]->0 < score,
        decreases high - low,
    {
        let middle: usize = low + (high - low) / 2;
        let ahead = match scores[order[middle]] {
            Some(other) => other >= score,
            None => true,
        };
        if ahead {
            low = middle + 1;
        } else {
            high = middle;
        }
    }
    low
}

/// A ranking of the first `i` records, with the place `i` put in where its
/// score belongs, ranks the first `i + 1` records.
proof fn lemma_ranking_insert(before: Seq<usize>, scores: Seq<Option<i64>>, i: usize, place: int)
    requires
        i < scores.len(),
        scores[i as int] is Some,
        ranks_first(before, scores, i as int),
        0 <= place <= before.len(),
        forall|k: int|
            0 <= k < place ==> scores[#[trigger] before[k] as int]->0 >= scores[i as int]->0,
        forall|k: int|
            place <= k < before.len() ==> scores[#[trigger] before[k] as int]->0
                < scores[i as int]->0,
    ensures
        ranks_first(before.insert(place, i), scores, i + 1),
{
    let after = before.insert(place, i);
    assert forall|k: int| 0 <= k < after.len() implies #[trigger] after[k] < i + 1
        && scores[after[k] as int] is Some by {
        if k < place {
            assert(after[k] == before[k]);
        } else if k > place {
            assert(after[k] == before[k - 1]);
        }
    }
    assert forall|j: int| 0 <= j < i + 1 && #[trigger] scores[j] is Some implies exists|k: int|
        0 <= k < after.len() && #[trigger] after[k] == j by {
        if j == i {
            assert(after[place] == j);
        } else {
            let k = choose|k: int| 0 <= k < before.len() && before[k] == j;
            if k < place {
                assert(after[k] == j);
            } else {
                assert(after[k + 1] == j);
            }
        }
    }
    assert forall|a: int, b: int| 0 <= a < b < after.len() implies precedes(
        scores,
        #[trigger] after[a] as int,
        #[trigger] after[b] as int,
    ) by {
        if b < place {
            assert(after[a] == before[a] && after[b] == before[b]);
        } else if b == place {
            assert(after[a] == before[a]);
            assert(before[a] < i);
        } else if a < place {
            assert(after[a] == before[a] && after[b] == before[b - 1]);
        } else if a == place {
            assert(after[b] == before[b - 1]);
        } else {
            assert(after[a] == before[a - 1] && after[b] == before[b - 1]);
        }
    }
}

/// A place for a new score in a ranking: behind all that score as much or
/// more, before all that score less.
proof fn lemma_place_exists(
    before: Seq<usize>,
    scores: Seq<Option<i64>>,
    score: i64,
    n: int,
    from: int,
) -> (place: int)
    requires
        ranks_first(before, scores, n),
        0 <= from <= before.len(),
        forall|k: int| 0 <= k < from ==> scores[#[trigger] before[k] as int]->0 >= score,
    ensures
        0 <= place <= before.len(),
        forall|k: int| 0 <= k < place ==> scores[#[trigger] before[k] as int]->0 >= score,
        forall|k: int| place <= k < before.len() ==> scores[#[trigger] before[k] as int]->0 < score,
    decreases before.len() - from,
{
    if from == before.len() {
        from
    } else if scores[before[from] as int]->0 >= score {
        lemma_place_exists(before, scores, score, n, from + 1)
    } else {
        assert forall|k: int|
            from <= k < before.len() implies scores[#[trigger] before[k] as int]->0
            < score by {
            if k > from {
                assert(precedes(scores, before[from] as int, before[k] as int));
            }
        }
        from
    }
}

/// The first `n` records have a ranking.
proof fn lemma_ranks_first_exists(scores: Seq<Option<i64>>, n: int) -> (order: Seq<usize>)
    requires
        0 <= n <= scores.len(),
        n <= usize::MAX,
    ensures
        ranks_first(order, scores, n),
    decreases n,
{
    if n == 0 {
        Seq::empty()
    } else {
        let before = lemma_ranks_first_exists(scores, n - 1);
        if scores[n - 1] is Some {
            let place = lemma_place_exists(before, scores, scores[n - 1]->0, n - 1, 0);
            lemma_ranking_insert(before, scores, (n - 1) as usize, place);
            before.insert(place, (n - 1) as usize)
        } else {
            before
        }
    }
}

/// Every list of scores that a machine can hold has a ranking, and
/// `ranking` is it: by descending score, ties in the order of the registry.
pub proof fn lemma_ranking_exists(scores: Seq<Option<i64>>)
    requires
        scores.len() <= usize::MAX,
    ensures
        is_ranking(ranking(scores), scores),
{
    let order = lemma_ranks_first_exists(scores, scores.len() as int);
    assert(is_ranking(order, scores));
}

/// Scores do not rise along a ranking.
pub proof fn lemma_ranking_descends(order: Seq<usize>, scores: Seq<Option<i64>>, a: int, b: int)
    requires
        is_ranking(order, scores),
        0 <= a <= b < order.len(),
    ensures
        scores[order[a] as int]->0 >= scores[order[b] as int]->0,
{
    if a < b {
        assert(precedes(scores, order[a] as int, order[b] as int));
    }
}

/// Ranks records by their scores: the places of those that have a score,
/// by descending score, ties in the order of the registry.
pub fn rank(scores: &Vec<Option<i64>>) -> (order: Vec<usize>)
    ensures
        is_ranking(order@, scores@),
        order@ == ranking(scores@),
{
    let mut order: Vec<usize> = Vec::new();
    for i in 0..scores.len()
        invariant
            ranks_first(order@, scores@, i as int),
    {
        if let Some(score) = scores[i] {
            assert forall|a: int, b: int|
                0 <= a < b < order.len() implies scores[#[trigger] order[a] as int]->0
                >= scores[#[trigger] order[b] as int]->0 by {
                assert(precedes(scores@, order[a] as int, order[b] as int));
            }
            let place = place_for(&order, scores, score);
            proof {
                lemma_ranking_insert(order@, scores@, i, place as int);
            }
            order.insert(place, i);
        }
    }
    proof {
        assert(is_ranking(order@, scores@));
        lemma_ranking_unique(order@, ranking(scores@), scores@);
    }
    order
}

/// The scores of all records of a registry for a query.
pub open spec fn scores_of(apps: Seq<AppInfoView>, query: Seq<char>) -> Seq<Option<i64>> {
    Seq::new(apps.len(), |i: int| candidate_score(apps[i], query))
}

/// The records at the places `order`, in that order.
pub open spec fn records_at(apps: Seq<AppInfoView>, order: Seq<usize>) -> Seq<AppInfoView> {
    Seq::new(order.len(), |k: int| apps[order[k] as int])
}

/// What a search returns: nothing for the empty query; else the records
/// that have a score, by descending score, ties in the order of the
/// registry.
pub open spec fn search_result(apps: Seq<AppInfoView>, query: Seq<char>) -> Seq<AppInfoView> {
    if query.len() == 0 {
        Seq::empty()
    } else {
        records_at(apps, ranking(scores_of(apps, query)))
    }
}

/// The score of one record for a query that is in lower case already.
fn score_candidate(app: &AppInfo, query: &str, lowered_query: &str) -> (score: Option<i64>)
    requires
        lowered_query@ == lowercase(query@),
        !has_ascii_upper(lowered_query@),
    ensures
        score == candidate_score(app@, query@),
        score is Some <==> is_hit(app@, query@),
{
    let name = to_lowercase(app.name.as_str());
    let path = to_lowercase(app.path.as_str());
    proof {
        lemma_accepts_subsequences(name@, lowered_query@);
        lemma_accepts_subsequences(path@, lowered_query@);
    }
    combine_scores(
        fuzzy_score(name.as_str(), lowered_query),
        fuzzy_score(path.as_str(), lowered_query),
    )
}

/// The places in `apps` of the records that match `query`, best first.
pub fn ranked_places(apps: &[AppInfo], query: &str) -> (order: Vec<usize>)
    ensures
        query@.len() == 0 ==> order@.len() == 0,
        query@.len() > 0 ==> order@ == ranking(scores_of(apps.deep_view(), query@)) && is_ranking(
            order@,
            scores_of(apps.deep_view(), query@),
        ),
        query@.len() > 0 ==> forall|i: int|
            0 <= i < apps.len() ==> (#[trigger] scores_of(apps.deep_view(), query@)[i] is Some
                <==> is_hit(apps.deep_view()[i], query@)),
        forall|k: int| 0 <= k < order.len() ==> #[trigger] order[k] < apps.len(),
{
    if query.is_empty() {
        return Vec::new();
    }
    let lowered_query = to_lowercase(query);
    let mut scores: Vec<Option<i64>> = Vec::new();
    for i in 0..apps.len()
        invariant
            lowered_query@ == lowercase(query@),
            !has_ascii_upper(lowered_query@),
            scores@.len() == i,
            forall|k: int|
                0 <= k < i ==> scores@[k] == candidate_score(apps.deep_view()[k], query@),
            forall|k: int|
                0 <= k < i ==> (#[trigger] scores@[k] is Some <==> is_hit(
                    apps.deep_view()[k],
                    query@,
                )),
    {
        let score = score_candidate(&apps[i], query, lowered_query.as_str());
        scores.push(score);
    }
    assert(scores@ =~= scores_of(apps.deep_view(), query@));
    rank(&scores)
}

/// Searches a registry: the records whose name or path matches `query`,
/// best first. The empty query finds nothing.
pub fn search_apps(apps: &[AppInfo], query: &str) -> (found: Vec<AppInfo>)
    ensures
        found.deep_view() == search_result(apps.deep_view(), query@),
        query@.len() == 0 ==> found@.len() == 0,
        query@.len() > 0 ==> is_ranking(
            ranking(scores_of(apps.deep_view(), query@)),
            scores_of(apps.deep_view(), query@),
        ),
        query@.len() > 0 ==> forall|i: int|
            0 <= i < apps.len() ==> (is_hit(#[trigger] apps.deep_view()[i], query@)
                <==> found.deep_view().contains(apps.deep_view()[i])),
        forall|j: int|
            0 <= j < found.len() ==> found_in(#[trigger] found.deep_view()[j].name, query@)
                || found_in(found.deep_view()[j].path, query@),
        forall|a: int, b: int|
            0 <= a <= b < found.len() ==> candidate_score(
                #[trigger] found.deep_view()[a],
                query@,
            )->0 >= candidate_score(#[trigger] found.deep_view()[b], query@)->0,
{
    let mut found: Vec<AppInfo> = Vec::new();
    if query.is_empty() {
        assert(found.deep_view() =~= Seq::<AppInfoView>::empty());
        return found;
    }
    let order = ranked_places(apps, query);
    let ghost scores = scores_of(apps.deep_view(), query@);
    for k in 0..order.len()
        invariant
            is_ranking(order@, scores),
            scores == scores_of(apps.deep_view(), query@),
            found@.len() == k,
            forall|j: int|
                0 <= j < k ==> found.deep_view()[j] == apps.deep_view()[order@[j] as int],
            forall|i: int|
                0 <= i < apps.len() ==> (#[trigger] scores[i] is Some <==> is_hit(
                    apps.deep_view()[i],
                    query@,
                )),
            forall|j: int|
                0 <= j < k ==> found_in(#[trigger] found.deep_view()[j].name, query@) || found_in(
                    found.deep_view()[j].path,
                    query@,
                ),
    {
        let ghost so_far = found.deep_view();
        let app = apps[order[k]].clone();
        assert(scores[order@[k as int] as int] is Some);
        found.push(app);
        assert(found.deep_view() =~= so_far.push(app@));
    }
    assert(found.deep_view() =~= records_at(apps.deep_view(), order@));
    assert forall|a: int, b: int| 0 <= a <= b < found.len() implies candidate_score(
        #[trigger] found.deep_view()[a],
        query@,
    )->0 >= candidate_score(#[trigger] found.deep_view()[b], query@)->0 by {
        lemma_ranking_descends(order@, scores, a, b);
        assert(scores[order@[a] as int] == candidate_score(found.deep_view()[a], query@));
        assert(scores[order@[b] as int] == candidate_score(found.deep_view()[b], query@));
    }
    assert forall|i: int| 0 <= i < apps.len() implies (is_hit(
        #[trigger] apps.deep_view()[i],
        query@,
    ) <==> found.deep_view().contains(apps.deep_view()[i])) by {
        if is_hit(apps.deep_view()[i], query@) {
            assert(scores[i] is Some);
            let k = choose|k: int| 0 <= k < order@.len() && order@[k] == i;
            assert(found.deep_view()[k] == apps.deep_view()[i]);
        }
        if found.deep_view().contains(apps.deep_view()[i]) {
            let k = choose|k: int|
                0 <= k < found.deep_view().len() && found.deep_view()[k] == apps.deep_view()[i];
            assert(scores[order@[k] as int] is Some);
        }
    }
    found
}

/// `found` is a result of the search for `query` in `apps`: nothing for the
/// empty query, else the records at the places of some ranking.
pub open spec fn is_search_result(
    apps: Seq<AppInfoView>,
    query: Seq<char>,
    found: Seq<AppInfoView>,
) -> bool {
    if query.len() == 0 {
        found.len() == 0
    } else {
        exists|order: Seq<usize>|
            is_ranking(order, scores_of(apps, query)) && found == records_at(apps, order)
    }
}

/// Stable ordering: two results of one search on one registry are the
/// same records in the same order.
pub proof fn lemma_search_deterministic(
    apps: Seq<AppInfoView>,
    query: Seq<char>,
    first: Seq<AppInfoView>,
    second: Seq<AppInfoView>,
)
    requires
        is_search_result(apps, query, first),
        is_search_result(apps, query, second),
    ensures
        first == second,
        first == search_result(apps, query),
{
    let scores = scores_of(apps, query);
    if query.len() == 0 {
        assert(first =~= second);
        assert(first =~= search_result(apps, query));
    } else {
        let one = choose|order: Seq<usize>|
            is_ranking(order, scores) && first == records_at(apps, order);
        let two = choose|order: Seq<usize>|
            is_ranking(order, scores) && second == records_at(apps, order);
        lemma_ranking_unique(one, two, scores);
        lemma_ranking_unique(one, ranking(scores), scores);
    }
}

} // verus!
