use vstd::prelude::*;

verus! {

/// `needle` occurs in `haystack` starting at byte `p`.
pub open spec fn occurs_at(haystack: Seq<u8>, needle: Seq<u8>, p: int) -> bool {
    &&& 0 <= p
    &&& p + needle.len() <= haystack.len()
    &&& haystack.subrange(p, p + needle.len()) == needle
}

/// Start positions of the successive non-overlapping occurrences of `needle`
/// in `haystack`, searching from `from` on: after an occurrence at `p` the
/// search resumes at `p + max(needle.len(), 1)`.
pub open spec fn occurrences_from(haystack: Seq<u8>, needle: Seq<u8>, from: int) -> Seq<int>
    decreases haystack.len() + 1 - from,
{
    if from < 0 || from + needle.len() > haystack.len() {
        Seq::empty()
    } else if occurs_at(haystack, needle, from) {
        let step: int = if needle.len() == 0 {
            1
        } else {
            needle.len() as int
        };
        seq![from] + occurrences_from(haystack, needle, from + step)
    } else {
        occurrences_from(haystack, needle, from + 1)
    }
}

/// Start positions of the successive non-overlapping occurrences of `needle`
/// in `haystack`, leftmost first.
pub open spec fn occurrences(haystack: Seq<u8>, needle: Seq<u8>) -> Seq<int> {
    occurrences_from(haystack, needle, 0)
}

/// The start of the last occurrence of `needle` in `haystack`, if there is one.
pub open spec fn last_occurrence(haystack: Seq<u8>, needle: Seq<u8>) -> Option<int> {
    if exists|p: int| occurs_at(haystack, needle, p) {
        Some(choose|p: int| occurs_at(haystack, needle, p) && forall|q: int| #![trigger occurs_at(haystack, needle, q)] p < q ==> !occurs_at(haystack, needle, q))
    } else {
        None
    }
}

/// `memchr::memmem::find_iter`, collected: the start offsets of the
/// non-overlapping occurrences of `needle` in `haystack`, in order. The
/// contract states the result exactly, as `occurrences`.
#[verifier::external_body]
pub(crate) fn find_occurrences(haystack: &[u8], needle: &[u8]) -> (r: Vec<usize>)
    ensures
        r@.len() == occurrences(haystack@, needle@).len(),
        forall|i: int| 0 <= i < r@.len() ==> r@[i] as int == occurrences(haystack@, needle@)[i],
{
    memchr::memmem::find_iter(haystack, needle).collect()
}

/// `memchr::memmem::rfind`: the start of the last occurrence of `needle` in
/// `haystack`, or `None` when it does not occur. The contract states exactly
/// that.
#[verifier::external_body]
pub(crate) fn rfind_occurrence(haystack: &[u8], needle: &[u8]) -> (r: Option<usize>)
    ensures
        r is None <==> forall|p: int| !occurs_at(haystack@, needle@, p),
        r matches Some(p) ==> occurs_at(haystack@, needle@, p as int) && forall|q: int|
            #![trigger occurs_at(haystack@, needle@, q)]
            p < q ==> !occurs_at(haystack@, needle@, q),
{
    memchr::memmem::rfind(haystack, needle)
}

/// Whether `regex::bytes::Regex::new` accepts `pattern`.
pub uninterp spec fn byte_regex_compiles(pattern: Seq<char>) -> bool;

/// The `(start, end)` spans that `regex::bytes::Regex::find_iter` yields for
/// `pattern` on `haystack`.
pub uninterp spec fn byte_regex_spans(pattern: Seq<char>, haystack: Seq<u8>) -> Seq<(usize, usize)>;

/// Spans lie inside a haystack of `len` bytes, each starts no later than it
/// ends, and each ends no later than the next one starts.
pub open spec fn spans_well_formed(spans: Seq<(usize, usize)>, len: nat) -> bool {
    &&& forall|i: int| #![trigger spans[i]] 0 <= i < spans.len() ==> spans[i].0 <= spans[i].1 <= len
    &&& forall|i: int, j: int| #![trigger spans[i], spans[j]] 0 <= i < j < spans.len() ==> spans[i].1 <= spans[j].0
}

/// Compiles `pattern` with `regex::bytes::Regex::new` and collects the spans of
/// `find_iter` over `haystack`. `None` exactly when the pattern is refused.
/// The spans are named by `byte_regex_spans`; of them the contract states
/// only what the crate documents: they are successive, non-overlapping and
/// inside the haystack.
#[verifier::external_body]
pub(crate) fn byte_regex_find_all(pattern: &str, haystack: &[u8]) -> (r: Option<Vec<(usize, usize)>>)
    ensures
        r is Some <==> byte_regex_compiles(pattern@),
        r matches Some(v) ==> v@ == byte_regex_spans(pattern@, haystack@),
        r matches Some(v) ==> spans_well_formed(v@, haystack@.len()),
{
    match regex::bytes::Regex::new(pattern) {
        Ok(re) => Some(re.find_iter(haystack).map(|m| (m.start(), m.end())).collect()),
        Err(_) => None,
    }
}

/// Whether `regex::Regex::new` accepts `pattern`.
pub uninterp spec fn text_regex_compiles(pattern: Seq<char>) -> bool;

/// What `regex::Regex::is_match` answers for `pattern` on `text`.
pub uninterp spec fn text_regex_matches(pattern: Seq<char>, text: Seq<char>) -> bool;

/// Compiles `pattern` with `regex::Regex::new` and asks `is_match` on `text`.
/// `None` exactly when the pattern is refused; the answer is named by
/// `text_regex_matches`.
#[verifier::external_body]
pub(crate) fn text_regex_is_match(pattern: &str, text: &str) -> (r: Option<bool>)
    ensures
        r is Some <==> text_regex_compiles(pattern@),
        r matches Some(b) ==> b == text_regex_matches(pattern@, text@),
{
    match regex::Regex::new(pattern) {
        Ok(re) => Some(re.is_match(text)),
        Err(_) => None,
    }
}

/// Every position that `occurrences_from` lists holds an occurrence, at or
/// after `from`.
pub proof fn lemma_occurrences_inside(haystack: Seq<u8>, needle: Seq<u8>, from: int)
    ensures
        forall|i: int|
            0 <= i < occurrences_from(haystack, needle, from).len() ==> occurs_at(
                haystack,
                needle,
                #[trigger] occurrences_from(haystack, needle, from)[i],
            ) && from <= occurrences_from(haystack, needle, from)[i],
    decreases haystack.len() + 1 - from,
{
    if from < 0 || from + needle.len() > haystack.len() {
    } else if occurs_at(haystack, needle, from) {
        let step: int = if needle.len() == 0 {
            1
        } else {
            needle.len() as int
        };
        lemma_occurrences_inside(haystack, needle, from + step);
        let rest = occurrences_from(haystack, needle, from + step);
        assert(occurrences_from(haystack, needle, from) == seq![from] + rest);
        assert forall|i: int| 0 <= i < occurrences_from(haystack, needle, from).len() implies occurs_at(
            haystack,
            needle,
            #[trigger] occurrences_from(haystack, needle, from)[i],
        ) && from <= occurrences_from(haystack, needle, from)[i] by {
            if i > 0 {
                assert(occurrences_from(haystack, needle, from)[i] == rest[i - 1]);
            }
        }
    } else {
        lemma_occurrences_inside(haystack, needle, from + 1);
        assert(occurrences_from(haystack, needle, from) == occurrences_from(haystack, needle, from + 1));
    }
}

/// A position with no later occurrence is what `last_occurrence` picks.
pub proof fn lemma_last_occurrence_is(haystack: Seq<u8>, needle: Seq<u8>, p: int)
    requires
        occurs_at(haystack, needle, p),
        forall|q: int| #![trigger occurs_at(haystack, needle, q)] p < q ==> !occurs_at(haystack, needle, q),
    ensures
        last_occurrence(haystack, needle) == Some(p),
{
    let c = choose|c: int| occurs_at(haystack, needle, c) && forall|q: int| #![trigger occurs_at(haystack, needle, q)] c < q ==> !occurs_at(haystack, needle, q);
    assert(occurs_at(haystack, needle, c));
    if c < p {
        assert(!occurs_at(haystack, needle, p));
    }
    if p < c {
        assert(!occurs_at(haystack, needle, c));
    }
}


/// Where `needle` occurs, `last_occurrence` finds its last occurrence.
pub proof fn lemma_last_occurrence_exists(haystack: Seq<u8>, needle: Seq<u8>, p: int)
    requires
        occurs_at(haystack, needle, p),
    ensures
        last_occurrence(haystack, needle) is Some,
        occurs_at(haystack, needle, last_occurrence(haystack, needle)->0),
    decreases haystack.len() - p,
{
    if exists|q: int| p < q && occurs_at(haystack, needle, q) {
        let q = choose|q: int| p < q && occurs_at(haystack, needle, q);
        lemma_last_occurrence_exists(haystack, needle, q);
    } else {
        lemma_last_occurrence_is(haystack, needle, p);
    }
}


/// The position `last_occurrence` gives holds an occurrence.
pub proof fn lemma_last_occurrence_inside(haystack: Seq<u8>, needle: Seq<u8>)
    requires
        last_occurrence(haystack, needle) is Some,
    ensures
        occurs_at(haystack, needle, last_occurrence(haystack, needle)->0),
{
    let p0 = choose|p: int| occurs_at(haystack, needle, p);
    lemma_last_occurrence_exists(haystack, needle, p0);
}

} // verus!
