//! What counts as an inline math delimiter, and what text becomes once every
//! such delimiter is rewritten.

use vstd::prelude::*;

verus! {

/// The character at `i` is a lone `$`: not escaped by a backslash, and with no
/// `$` right before or right after it (so both halves of `$$` are excluded).
pub open spec fn is_candidate(s: Seq<char>, i: int) -> bool {
    &&& 0 <= i < s.len()
    &&& s[i] == '$'
    &&& (i == 0 || (s[i - 1] != '\\' && s[i - 1] != '$'))
    &&& (i + 1 == s.len() || s[i + 1] != '$')
}

/// `\( `, written in place of an opening delimiter.
pub open spec fn opening_marker() -> Seq<char> {
    seq!['\\', '(', ' ']
}

/// ` \)`, written in place of a closing delimiter.
pub open spec fn closing_marker() -> Seq<char> {
    seq![' ', '\\', ')']
}

pub open spec fn marker(opening: bool) -> Seq<char> {
    if opening {
        opening_marker()
    } else {
        closing_marker()
    }
}

/// The rewritten form of `s` from position `i` on, where the next delimiter
/// found opens when `opening` holds. Candidacy is judged in all of `s`.
pub open spec fn rendered_from(s: Seq<char>, i: int, opening: bool) -> Seq<char>
    decreases s.len() - i,
{
    if i < 0 || i >= s.len() {
        Seq::empty()
    } else if is_candidate(s, i) {
        marker(opening) + rendered_from(s, i + 1, !opening)
    } else {
        seq![s[i]] + rendered_from(s, i + 1, opening)
    }
}

/// `s` with its delimiters rewritten: the first opens, the second closes, the
/// third opens again, and so on; every other character is kept.
pub open spec fn rendered(s: Seq<char>) -> Seq<char> {
    rendered_from(s, 0, true)
}

/// A stretch `[i, j)` of `s` that holds no delimiter is copied as it stands.
pub proof fn lemma_rendered_skips_plain(s: Seq<char>, i: int, j: int, opening: bool)
    requires
        0 <= i <= j <= s.len(),
        forall|k: int| i <= k < j ==> !is_candidate(s, k),
    ensures
        rendered_from(s, i, opening) == s.subrange(i, j) + rendered_from(s, j, opening),
    decreases j - i,
{
    if i < j {
        lemma_rendered_skips_plain(s, i + 1, j, opening);
        assert(s.subrange(i, j) == seq![s[i]] + s.subrange(i + 1, j));
        assert(seq![s[i]] + (s.subrange(i + 1, j) + rendered_from(s, j, opening)) == (seq![s[i]]
            + s.subrange(i + 1, j)) + rendered_from(s, j, opening));
    } else {
        assert(s.subrange(i, j) == Seq::<char>::empty());
    }
}

/// Positions inside the suffix of `s` that starts at `k` are judged alike
/// alone and in `s`, where the suffix starts the text or follows a delimiter.
proof fn lemma_suffix_keeps_candidates(s: Seq<char>, k: int)
    requires
        0 <= k <= s.len(),
        k == 0 || is_candidate(s, k - 1),
    ensures
        forall|j: int|
            0 <= j < s.len() - k ==> (#[trigger] is_candidate(s.subrange(k, s.len() as int), j)
                <==> is_candidate(s, k + j)),
{
    let t = s.subrange(k, s.len() as int);
    assert forall|j: int| 0 <= j < s.len() - k implies (#[trigger] is_candidate(t, j)
        <==> is_candidate(s, k + j)) by {
        assert(t[j] == s[k + j]);
        if j > 0 {
            assert(t[j - 1] == s[k + j - 1]);
        }
        if j + 1 < t.len() {
            assert(t[j + 1] == s[k + j + 1]);
        }
    }
}

/// The pattern that finds a delimiter: a `$` not preceded by `\` or `$` and not
/// followed by `$`.
pub const INLINE_DELIMITER: &'static str = r"(?<!\\)(?<!\$)\$(?!\$)";

/// The backtrack limit the regex is built with: none that a search can reach.
pub const UNBOUNDED_BACKTRACKING: usize = usize::MAX;

#[verifier::external_type_specification]
#[verifier::external_body]
pub struct ExRegex(fancy_regex::Regex);

#[verifier::external_type_specification]
#[verifier::external_body]
pub struct ExRegexError(fancy_regex::Error);

/// The compiled delimiter pattern. Its field is private and `new` is its only
/// constructor, so the regex it holds is always the one compiled from
/// `INLINE_DELIMITER`, with the backtrack limit `UNBOUNDED_BACKTRACKING`.
pub struct InlinePattern {
    re: fancy_regex::Regex,
}

/// Relies on fancy_regex::RegexBuilder (`new`, `backtrack_limit`, `build`) to
/// compile `pattern` with the given backtrack limit. `INLINE_DELIMITER` is a
/// well-formed pattern (two negative lookbehinds of one character, a literal,
/// a negative lookahead of one character), so it compiles.
#[verifier::external_body]
fn compile_regex(pattern: &str, backtrack_limit: usize) -> (r: Result<
    fancy_regex::Regex,
    fancy_regex::Error,
>)
    ensures
        pattern@ == INLINE_DELIMITER@ ==> r is Ok,
{
    fancy_regex::RegexBuilder::new(pattern).backtrack_limit(backtrack_limit).build()
}

/// Relies on fancy_regex::Regex::find, run with the regex compiled from
/// `INLINE_DELIMITER` with backtrack limit `usize::MAX` (the only one an
/// `InlinePattern` holds). It returns the leftmost match, a single `$`, which
/// splits `text` into what comes before it and what comes after it, and
/// `Ok(None)` where nothing matches. It never returns an error: the backtrack
/// count can reach no limit of `usize::MAX`, and this pattern keeps the
/// backtrack stack to a few branches, far below its bound.
#[verifier::external_body]
fn find_delimiter(p: &InlinePattern, text: &str) -> (r: Result<
    Option<(String, String)>,
    fancy_regex::Error,
>)
    ensures
        r is Ok,
        r matches Ok(Some((before, after))) ==> {
            &&& text@ == before@ + seq!['$'] + after@
            &&& is_candidate(text@, before@.len() as int)
            &&& forall|k: int| 0 <= k < before@.len() ==> !#[trigger] is_candidate(text@, k)
        },
        r matches Ok(None) ==> forall|k: int| !#[trigger] is_candidate(text@, k),
{
    p.re.find(text).map(|o| o.map(|m| (text[..m.start()].to_string(), text[m.end()..].to_string())))
}

impl InlinePattern {
    /// Compiles the delimiter pattern.
    pub fn new() -> (r: InlinePattern) {
        let re = compile_regex(INLINE_DELIMITER, UNBOUNDED_BACKTRACKING).unwrap();
        InlinePattern { re }
    }

    /// Rewrites every delimiter of `text`, searching for each one with the
    /// regex. The result is exactly `rendered(text@)`.
    pub fn rewrite(&self, text: &str) -> (r: String)
        ensures
            r@ == rendered(text@),
    {
        let ghost s = text@;
        let mut out = String::new();
        let mut rest = String::from_str(text);
        let mut opening = true;
        let ghost mut k: int = 0;
        proof {
            assert(s.subrange(0, s.len() as int) == s);
        }
        loop
            invariant
                s == text@,
                0 <= k <= s.len(),
                rest@ == s.subrange(k, s.len() as int),
                k == 0 || is_candidate(s, k - 1),
                out@ + rendered_from(s, k, opening) == rendered(s),
            decreases rest@.len(),
        {
            proof {
                lemma_suffix_keeps_candidates(s, k);
            }
            match find_delimiter(self, rest.as_str()).unwrap() {
                None => {
                    proof {
                        assert forall|j: int| k <= j < s.len() implies !is_candidate(s, j) by {
                            assert(!is_candidate(rest@, j - k));
                        }
                        lemma_rendered_skips_plain(s, k, s.len() as int, opening);
                        assert(rendered_from(s, s.len() as int, opening) == Seq::<char>::empty());
                        assert(out@ + rest@ == rendered(s));
                    }
                    let ghost prev = out@;
                    out.append(rest.as_str());
                    assert(out@ == prev + rest@);
                    return out;
                },
                Some((before, after)) => {
                    let ghost m = k + before@.len();
                    proof {
                        assert(is_candidate(rest@, before@.len() as int));
                        assert forall|j: int| k <= j < m implies !is_candidate(s, j) by {
                            assert(!is_candidate(rest@, j - k));
                        }
                        lemma_rendered_skips_plain(s, k, m, opening);
                        assert(rest@.subrange(0, before@.len() as int) == before@);
                        assert(s.subrange(k, m) == before@);
                        assert(rendered_from(s, m, opening) == marker(opening) + rendered_from(
                            s,
                            m + 1,
                            !opening,
                        ));
                        assert(after@ == rest@.subrange(before@.len() + 1int, rest@.len() as int));
                        assert(after@ == s.subrange(m + 1, s.len() as int));
                    }
                    out.append(before.as_str());
                    let ghost prev = out@;
                    if opening {
                        let mark = "\\( ";
                        proof {
                            reveal_strlit("\\( ");
                        }
                        assert(mark@ == opening_marker());
                        out.append(mark);
                    } else {
                        let mark = " \\)";
                        proof {
                            reveal_strlit(" \\)");
                        }
                        assert(mark@ == closing_marker());
                        out.append(mark);
                    }
                    proof {
                        assert(out@ == prev + marker(opening));
                        assert(out@ + rendered_from(s, m + 1, !opening) == rendered(s));
                    }
                    rest = after;
                    opening = !opening;
                    proof {
                        k = m + 1;
                    }
                },
            }
        }
    }
}

} // verus!
