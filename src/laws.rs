//! Properties of the rewrite as a whole.

use crate::delimiter::{
    closing_marker, is_candidate, lemma_rendered_skips_plain, marker, opening_marker, rendered,
    rendered_from,
};
use vstd::prelude::*;

verus! {

/// Text without a delimiter comes out exactly as it went in.
pub proof fn lemma_no_delimiter_unchanged(s: Seq<char>)
    requires
        forall|i: int| !#[trigger] is_candidate(s, i),
    ensures
        rendered(s) == s,
{
    lemma_rendered_skips_plain(s, 0, s.len() as int, true);
    assert(s.subrange(0, s.len() as int) == s);
    assert(rendered_from(s, s.len() as int, true) == Seq::<char>::empty());
    assert(s + Seq::<char>::empty() == s);
}

/// Whether a character is at position `a.len() + j` in `a + t` a delimiter
/// depends on the last character of `a` alone.
proof fn lemma_candidate_after_prefix(a: Seq<char>, b: Seq<char>, t: Seq<char>, j: int)
    requires
        a.len() > 0,
        b.len() > 0,
        a.last() == b.last(),
        0 <= j < t.len(),
    ensures
        is_candidate(a + t, a.len() + j) == is_candidate(b + t, b.len() + j),
{
    let x = a + t;
    let y = b + t;
    assert(x[a.len() + j] == t[j]);
    assert(y[b.len() + j] == t[j]);
    if j > 0 {
        assert(x[a.len() + j - 1] == t[j - 1]);
        assert(y[b.len() + j - 1] == t[j - 1]);
    } else {
        assert(x[a.len() - 1] == a.last());
        assert(y[b.len() - 1] == b.last());
    }
    if j + 1 < t.len() {
        assert(x[a.len() + j + 1] == t[j + 1]);
        assert(y[b.len() + j + 1] == t[j + 1]);
    }
}

/// No delimiter is left in what `rendered_from(s, i, opening)` writes, when it
/// follows a character `x` that stands for what came before position `i`.
proof fn lemma_rendered_from_has_no_delimiter(s: Seq<char>, i: int, opening: bool, x: char)
    requires
        0 <= i <= s.len(),
        (i == 0 || is_candidate(s, i - 1)) ==> (x != '$' && x != '\\'),
        (i > 0 && !is_candidate(s, i - 1)) ==> x == s[i - 1],
    ensures
        forall|j: int|
            0 <= j < rendered_from(s, i, opening).len() ==> !#[trigger] is_candidate(
                seq![x] + rendered_from(s, i, opening),
                j + 1,
            ),
    decreases s.len() - i,
{
    let w = rendered_from(s, i, opening);
    if i < s.len() {
        let m = marker(opening);
        if is_candidate(s, i) {
            let r = rendered_from(s, i + 1, !opening);
            assert(w == m + r);
            let y = if opening { ' ' } else { ')' };
            assert(m.last() == y);
            lemma_rendered_from_has_no_delimiter(s, i + 1, !opening, y);
            assert forall|j: int| 0 <= j < w.len() implies !#[trigger] is_candidate(
                seq![x] + w,
                j + 1,
            ) by {
                assert(seq![x] + w == (seq![x] + m) + r);
                if j < m.len() {
                    assert((seq![x] + w)[j + 1] == m[j]);
                    assert(m[j] != '$') by {
                        assert(m.len() == 3);
                        if opening {
                            assert(m == opening_marker());
                        } else {
                            assert(m == closing_marker());
                        }
                    }
                } else {
                    let jj = j - m.len();
                    assert(0 <= jj < r.len());
                    assert(!is_candidate(seq![y] + r, jj + 1));
                    lemma_candidate_after_prefix(seq![x] + m, seq![y], r, jj);
                    assert((seq![x] + m).len() + jj == j + 1);
                }
            }
        } else {
            let c = s[i];
            let r = rendered_from(s, i + 1, opening);
            assert(w == seq![c] + r);
            lemma_rendered_from_has_no_delimiter(s, i + 1, opening, c);
            assert forall|j: int| 0 <= j < w.len() implies !#[trigger] is_candidate(
                seq![x] + w,
                j + 1,
            ) by {
                assert(seq![x] + w == seq![x, c] + r);
                if j == 0 {
                    assert((seq![x] + w)[1] == c);
                    assert((seq![x] + w)[0] == x);
                    if c == '$' && i > 0 {
                        assert(s[i - 1] == '$' ==> !is_candidate(s, i - 1));
                    }
                    if c == '$' && i + 1 < s.len() && s[i + 1] == '$' {
                        assert(!is_candidate(s, i + 1));
                        assert(r[0] == s[i + 1]);
                        assert((seq![x] + w)[2] == r[0]);
                    }
                } else {
                    assert(!is_candidate(seq![c] + r, (j - 1) + 1));
                    lemma_candidate_after_prefix(seq![x, c], seq![c], r, j - 1);
                }
            }
        }
    }
}

/// Rewritten text holds no delimiter.
pub proof fn lemma_rendered_has_no_delimiter(s: Seq<char>)
    ensures
        forall|j: int| !#[trigger] is_candidate(rendered(s), j),
{
    let w = rendered(s);
    lemma_rendered_from_has_no_delimiter(s, 0, true, ' ');
    assert forall|j: int| !#[trigger] is_candidate(w, j) by {
        if 0 <= j < w.len() {
            assert(!is_candidate(seq![' '] + w, j + 1));
            assert((seq![' '] + w)[j + 1] == w[j]);
            if j > 0 {
                assert((seq![' '] + w)[j] == w[j - 1]);
            }
            if j + 1 < w.len() {
                assert((seq![' '] + w)[j + 2] == w[j + 1]);
            }
        }
    }
}

/// Rewriting twice gives what rewriting once gives: the first pass leaves no
/// delimiter behind.
pub proof fn lemma_rewrite_idempotent(s: Seq<char>)
    ensures
        rendered(rendered(s)) == rendered(s),
{
    lemma_rendered_has_no_delimiter(s);
    lemma_no_delimiter_unchanged(rendered(s));
}

/// How many delimiters `s` holds from position `i` on.
pub open spec fn delimiter_count_from(s: Seq<char>, i: int) -> nat
    decreases s.len() - i,
{
    if i < 0 || i >= s.len() {
        0
    } else if is_candidate(s, i) {
        1 + delimiter_count_from(s, i + 1)
    } else {
        delimiter_count_from(s, i + 1)
    }
}

/// How many delimiters `s` holds.
pub open spec fn delimiter_count(s: Seq<char>) -> nat {
    delimiter_count_from(s, 0)
}

/// The role of each delimiter of `s` from position `i` on, in order, as
/// `rendered_from(s, i, opening)` writes them: `true` for an opener.
pub open spec fn roles_from(s: Seq<char>, i: int, opening: bool) -> Seq<bool>
    decreases s.len() - i,
{
    if i < 0 || i >= s.len() {
        Seq::empty()
    } else if is_candidate(s, i) {
        seq![opening] + roles_from(s, i + 1, !opening)
    } else {
        roles_from(s, i + 1, opening)
    }
}

/// The role of each delimiter of `s`, in order.
pub open spec fn delimiter_roles(s: Seq<char>) -> Seq<bool> {
    roles_from(s, 0, true)
}

proof fn lemma_roles_from_alternate(s: Seq<char>, i: int, opening: bool)
    requires
        0 <= i <= s.len(),
    ensures
        roles_from(s, i, opening).len() == delimiter_count_from(s, i),
        forall|k: int|
            0 <= k < roles_from(s, i, opening).len() ==> #[trigger] roles_from(s, i, opening)[k]
                == if k % 2 == 0 {
                opening
            } else {
                !opening
            },
    decreases s.len() - i,
{
    if i < s.len() {
        if is_candidate(s, i) {
            lemma_roles_from_alternate(s, i + 1, !opening);
            let r = roles_from(s, i + 1, !opening);
            assert forall|k: int| 0 <= k < r.len() + 1 implies #[trigger] (seq![opening] + r)[k]
                == if k % 2 == 0 {
                opening
            } else {
                !opening
            } by {
                if k > 0 {
                    assert((seq![opening] + r)[k] == r[k - 1]);
                }
            }
        } else {
            lemma_roles_from_alternate(s, i + 1, opening);
        }
    }
}

/// Delimiters take turns, by order of appearance alone: the first opens, the
/// second closes, the third opens, and so on. Where their number is odd, the
/// last one opens.
pub proof fn lemma_roles_alternate(s: Seq<char>)
    ensures
        delimiter_roles(s).len() == delimiter_count(s),
        forall|k: int|
            0 <= k < delimiter_count(s) ==> #[trigger] delimiter_roles(s)[k] == (k % 2 == 0),
{
    lemma_roles_from_alternate(s, 0, true);
}

/// An even number `n` of delimiters is rewritten as `n / 2` openers and
/// `n / 2` closers, in order of appearance, each opener followed by its closer:
/// the rewritten text is the input with its delimiters replaced, in turn, by
/// `\( ` and ` \)`.
pub proof fn lemma_even_delimiters_pair_up(s: Seq<char>)
    requires
        delimiter_count(s) % 2 == 0,
    ensures
        rendered(s) == splice(s, 0, delimiter_positions(s), markers_for(delimiter_roles(s))),
        delimiter_positions(s).len() == delimiter_count(s),
        markers_for(delimiter_roles(s)).len() == delimiter_count(s),
        forall|j: int|
            0 <= j < delimiter_count(s) / 2 ==> #[trigger] markers_for(delimiter_roles(s))[2 * j]
                == opening_marker() && markers_for(delimiter_roles(s))[2 * j + 1]
                == closing_marker(),
{
    lemma_rendered_replaces_each_delimiter(s);
    lemma_roles_alternate(s);
    let ms = markers_for(delimiter_roles(s));
    assert forall|j: int| 0 <= j < delimiter_count(s) / 2 implies #[trigger] ms[2 * j]
        == opening_marker() && ms[2 * j + 1] == closing_marker() by {
        assert(delimiter_roles(s)[2 * j] == ((2 * j) % 2 == 0));
        assert(delimiter_roles(s)[2 * j + 1] == ((2 * j + 1) % 2 == 0));
    }
}

/// An opener and the closer that follows it, starting from a point where the
/// next delimiter opens, are written as `\( `, what lies between them, and
/// ` \)`; after them the next delimiter opens again.
pub proof fn lemma_pair_rewritten(s: Seq<char>, i: int, a: int, b: int)
    requires
        0 <= i <= a < b < s.len(),
        is_candidate(s, a),
        is_candidate(s, b),
        forall|k: int| i <= k < a ==> !#[trigger] is_candidate(s, k),
        forall|k: int| a < k < b ==> !#[trigger] is_candidate(s, k),
    ensures
        rendered_from(s, i, true) == s.subrange(i, a) + opening_marker() + s.subrange(a + 1, b)
            + closing_marker() + rendered_from(s, b + 1, true),
{
    lemma_rendered_skips_plain(s, i, a, true);
    lemma_rendered_skips_plain(s, a + 1, b, false);
    assert(rendered_from(s, a, true) == opening_marker() + rendered_from(s, a + 1, false));
    assert(rendered_from(s, b, false) == closing_marker() + rendered_from(s, b + 1, true));
    assert(s.subrange(i, a) + opening_marker() + s.subrange(a + 1, b) + closing_marker()
        + rendered_from(s, b + 1, true) == s.subrange(i, a) + (opening_marker() + (s.subrange(
        a + 1,
        b,
    ) + (closing_marker() + rendered_from(s, b + 1, true)))));
}

/// The positions of the delimiters of `s` from position `i` on, in order.
pub open spec fn positions_from(s: Seq<char>, i: int) -> Seq<int>
    decreases s.len() - i,
{
    if i < 0 || i >= s.len() {
        Seq::empty()
    } else if is_candidate(s, i) {
        seq![i] + positions_from(s, i + 1)
    } else {
        positions_from(s, i + 1)
    }
}

/// The positions of the delimiters of `s`, in order.
pub open spec fn delimiter_positions(s: Seq<char>) -> Seq<int> {
    positions_from(s, 0)
}

/// `s` from position `i` on, with the character at `ps[k]` replaced by
/// `ms[k]` for each `k`, where `ps` is increasing and starts at or after `i`.
pub open spec fn splice(s: Seq<char>, i: int, ps: Seq<int>, ms: Seq<Seq<char>>) -> Seq<char>
    decreases s.len() - i,
{
    if i < 0 || i >= s.len() {
        Seq::empty()
    } else if ps.len() > 0 && ps[0] == i {
        ms[0] + splice(s, i + 1, ps.drop_first(), ms.drop_first())
    } else {
        seq![s[i]] + splice(s, i + 1, ps, ms)
    }
}

/// The markers written for a sequence of roles.
pub open spec fn markers_for(roles: Seq<bool>) -> Seq<Seq<char>> {
    roles.map_values(|b: bool| marker(b))
}

proof fn lemma_positions_from_facts(s: Seq<char>, i: int)
    requires
        0 <= i <= s.len(),
    ensures
        positions_from(s, i).len() == delimiter_count_from(s, i),
        forall|k: int|
            0 <= k < positions_from(s, i).len() ==> i <= #[trigger] positions_from(s, i)[k]
                && is_candidate(s, positions_from(s, i)[k]),
        forall|k: int, l: int|
            0 <= k < l < positions_from(s, i).len() ==> #[trigger] positions_from(s, i)[k]
                < #[trigger] positions_from(s, i)[l],
    decreases s.len() - i,
{
    if i < s.len() {
        lemma_positions_from_facts(s, i + 1);
        if is_candidate(s, i) {
            let r = positions_from(s, i + 1);
            assert forall|k: int| 0 < k < r.len() + 1 implies #[trigger] (seq![i] + r)[k] == r[k
                - 1] by {}
        }
    }
}

proof fn lemma_rendered_from_is_splice(s: Seq<char>, i: int, opening: bool)
    requires
        0 <= i <= s.len(),
    ensures
        rendered_from(s, i, opening) == splice(
            s,
            i,
            positions_from(s, i),
            markers_for(roles_from(s, i, opening)),
        ),
    decreases s.len() - i,
{
    if i < s.len() {
        lemma_positions_from_facts(s, i + 1);
        if is_candidate(s, i) {
            lemma_rendered_from_is_splice(s, i + 1, !opening);
            let ps = positions_from(s, i);
            let rs = roles_from(s, i, opening);
            assert(ps.drop_first() == positions_from(s, i + 1));
            assert(rs.drop_first() == roles_from(s, i + 1, !opening));
            assert(markers_for(rs).drop_first() == markers_for(rs.drop_first()));
            assert(markers_for(rs)[0] == marker(opening));
        } else {
            lemma_rendered_from_is_splice(s, i + 1, opening);
            let ps = positions_from(s, i + 1);
            assert(ps.len() > 0 ==> ps[0] != i);
        }
    }
}

/// The rewritten text is the input with its `k`-th delimiter, at
/// `delimiter_positions(s)[k]`, replaced by the marker of its role
/// `delimiter_roles(s)[k]`, and every other character kept; the positions are
/// exactly the delimiters, in increasing order.
pub proof fn lemma_rendered_replaces_each_delimiter(s: Seq<char>)
    ensures
        rendered(s) == splice(s, 0, delimiter_positions(s), markers_for(delimiter_roles(s))),
        delimiter_positions(s).len() == delimiter_count(s),
        delimiter_roles(s).len() == delimiter_count(s),
        forall|k: int|
            0 <= k < delimiter_count(s) ==> is_candidate(s, #[trigger] delimiter_positions(s)[k]),
        forall|k: int, l: int|
            0 <= k < l < delimiter_count(s) ==> #[trigger] delimiter_positions(s)[k]
                < #[trigger] delimiter_positions(s)[l],
{
    lemma_rendered_from_is_splice(s, 0, true);
    lemma_positions_from_facts(s, 0);
    lemma_roles_alternate(s);
}

/// How many `$` characters `t` holds.
pub open spec fn dollar_count(t: Seq<char>) -> nat
    decreases t.len(),
{
    if t.len() == 0 {
        0
    } else {
        (if t[0] == '$' {
            1nat
        } else {
            0nat
        }) + dollar_count(t.drop_first())
    }
}

proof fn lemma_dollar_count_concat(a: Seq<char>, b: Seq<char>)
    ensures
        dollar_count(a + b) == dollar_count(a) + dollar_count(b),
    decreases a.len(),
{
    if a.len() > 0 {
        lemma_dollar_count_concat(a.drop_first(), b);
        assert((a + b).drop_first() == a.drop_first() + b);
    } else {
        assert(a + b == b);
    }
}

proof fn lemma_rendered_from_counts(s: Seq<char>, i: int, opening: bool)
    requires
        0 <= i <= s.len(),
    ensures
        rendered_from(s, i, opening).len() == (s.len() - i) + 2 * delimiter_count_from(s, i),
        dollar_count(rendered_from(s, i, opening)) + delimiter_count_from(s, i) == dollar_count(
            s.subrange(i, s.len() as int),
        ),
    decreases s.len() - i,
{
    let t = s.subrange(i, s.len() as int);
    if i < s.len() {
        assert(t.drop_first() == s.subrange(i + 1, s.len() as int));
        assert(t[0] == s[i]);
        if is_candidate(s, i) {
            lemma_rendered_from_counts(s, i + 1, !opening);
            let m = marker(opening);
            lemma_dollar_count_concat(m, rendered_from(s, i + 1, !opening));
            assert(dollar_count(m) == 0) by {
                reveal_with_fuel(dollar_count, 4);
                assert(m.drop_first().drop_first().drop_first().len() == 0);
            }
        } else {
            lemma_rendered_from_counts(s, i + 1, opening);
            lemma_dollar_count_concat(seq![s[i]], rendered_from(s, i + 1, opening));
            assert(dollar_count(seq![s[i]]) == if s[i] == '$' {
                1nat
            } else {
                0nat
            }) by {
                reveal_with_fuel(dollar_count, 2);
                assert(seq![s[i]].drop_first().len() == 0);
            }
        }
    } else {
        assert(t.len() == 0);
    }
}

/// Each delimiter grows into a marker two characters longer, and only the
/// delimiters' `$` signs are gone: the rewritten text is `2 n` characters
/// longer than the input and holds `n` fewer `$`, where `n` is the number of
/// delimiters, and it holds no delimiter.
pub proof fn lemma_rendered_size_and_dollars(s: Seq<char>)
    ensures
        rendered(s).len() == s.len() + 2 * delimiter_count(s),
        dollar_count(rendered(s)) + delimiter_count(s) == dollar_count(s),
        forall|j: int| !#[trigger] is_candidate(rendered(s), j),
{
    lemma_rendered_from_counts(s, 0, true);
    assert(s.subrange(0, s.len() as int) == s);
    lemma_rendered_has_no_delimiter(s);
}

} // verus!
