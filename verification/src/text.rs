//! Character-level string helpers with specifications over `Seq<char>`.

use vstd::prelude::*;
use vstd::string::*;

verus! {

/// Appends one character to a `String` (`String::push`).
#[verifier::external_body]
pub(crate) fn push_char(s: &mut String, c: char)
    ensures
        final(s)@ == old(s)@.push(c),
{
    s.push(c);
}

/// The characters of a string slice, in order.
pub fn chars_of(s: &str) -> (res: Vec<char>)
    ensures
        res@ == s@,
{
    let mut res: Vec<char> = Vec::new();
    for c in it: s.chars()
        invariant
            res@ == it.seq().take(it.index() as int),
            it.seq() == s@,
    {
        res.push(c);
    }
    res
}

/// A `String` holding exactly the given characters.
pub fn string_of(cs: &Vec<char>) -> (res: String)
    ensures
        res@ == cs@,
{
    let mut res = String::new();
    let mut i: usize = 0;
    while i < cs.len()
        invariant
            i <= cs.len(),
            res@ == cs@.take(i as int),
        decreases cs.len() - i,
    {
        push_char(&mut res, cs[i]);
        assert(cs@.take(i + 1) == cs@.take(i as int).push(cs@[i as int]));
        i += 1;
    }
    assert(cs@.take(cs.len() as int) == cs@);
    res
}

/// `pat` occurs in `s` at position `i`.
pub open spec fn occurs_at(s: Seq<char>, pat: Seq<char>, i: int) -> bool {
    0 <= i && i + pat.len() <= s.len() && s.subrange(i, i + pat.len()) == pat
}

/// `pat` occurs somewhere in `s` (`str::contains`).
pub open spec fn contains_seq(s: Seq<char>, pat: Seq<char>) -> bool {
    exists|i: int| #[trigger] occurs_at(s, pat, i)
}

/// Every non-overlapping occurrence of a non-empty `pat`, scanning from the
/// left, replaced by `rep` (`str::replace`).
pub open spec fn replace_all(s: Seq<char>, pat: Seq<char>, rep: Seq<char>) -> Seq<char>
    recommends
        pat.len() > 0,
    decreases s.len(),
{
    if pat.len() == 0 || s.len() == 0 {
        s
    } else if occurs_at(s, pat, 0) {
        rep + replace_all(s.skip(pat.len() as int), pat, rep)
    } else {
        seq![s[0]] + replace_all(s.skip(1), pat, rep)
    }
}

/// Replacing leaves a text without the pattern unchanged, and replacing a
/// pattern by itself changes nothing.
pub proof fn replace_all_changes_only_occurrences(s: Seq<char>, pat: Seq<char>, rep: Seq<char>)
    requires
        pat.len() > 0,
    ensures
        !contains_seq(s, pat) ==> replace_all(s, pat, rep) == s,
        replace_all(s, pat, pat) == s,
    decreases s.len(),
{
    if s.len() > 0 {
        let p = pat.len() as int;
        replace_all_changes_only_occurrences(s.skip(1), pat, rep);
        if p <= s.len() {
            replace_all_changes_only_occurrences(s.skip(p), pat, rep);
        }
        if !contains_seq(s, pat) {
            assert(!occurs_at(s, pat, 0));
            assert(!contains_seq(s.skip(1), pat)) by {
                if contains_seq(s.skip(1), pat) {
                    let i = choose|i: int| #[trigger] occurs_at(s.skip(1), pat, i);
                    assert(s.skip(1).subrange(i, i + p) =~= s.subrange(i + 1, i + 1 + p));
                    assert(occurs_at(s, pat, i + 1));
                }
            }
            assert(seq![s[0]] + s.skip(1) =~= s);
        }
        if occurs_at(s, pat, 0) {
            assert(s.subrange(0, p) == pat);
            assert(pat + s.skip(p) =~= s);
        } else {
            assert(seq![s[0]] + s.skip(1) =~= s);
        }
    }
}

/// `s` without `pat` at its start, if it starts with it (`str::strip_prefix`,
/// keeping `s` when it does not).
pub open spec fn strip_prefix(s: Seq<char>, pat: Seq<char>) -> Seq<char> {
    if occurs_at(s, pat, 0) {
        s.skip(pat.len() as int)
    } else {
        s
    }
}

/// `s` without `pat` at its end, if it ends with it.
pub open spec fn strip_suffix(s: Seq<char>, pat: Seq<char>) -> Seq<char> {
    if occurs_at(s, pat, s.len() - pat.len()) {
        s.take(s.len() - pat.len())
    } else {
        s
    }
}

/// `s` with every leading repetition of a non-empty `pat` removed
/// (`str::trim_start_matches`).
pub open spec fn trim_start_matches(s: Seq<char>, pat: Seq<char>) -> Seq<char>
    decreases s.len(),
{
    if pat.len() > 0 && occurs_at(s, pat, 0) {
        trim_start_matches(s.skip(pat.len() as int), pat)
    } else {
        s
    }
}

/// `s` with every trailing repetition of a non-empty `pat` removed
/// (`str::trim_end_matches`).
pub open spec fn trim_end_matches(s: Seq<char>, pat: Seq<char>) -> Seq<char>
    decreases s.len(),
{
    if pat.len() > 0 && occurs_at(s, pat, s.len() - pat.len()) {
        trim_end_matches(s.take(s.len() - pat.len()), pat)
    } else {
        s
    }
}

/// Unicode `White_Space` (`char::is_whitespace`).
pub open spec fn is_space(c: char) -> bool {
    ('\u{9}' <= c && c <= '\u{d}') || c == ' ' || c == '\u{85}' || c == '\u{a0}' || c == '\u{1680}'
        || ('\u{2000}' <= c && c <= '\u{200a}') || c == '\u{2028}' || c == '\u{2029}' || c == '\u{202f}'
        || c == '\u{205f}' || c == '\u{3000}'
}

/// `s` without its leading whitespace (`str::trim_start`).
pub open spec fn trim_start(s: Seq<char>) -> Seq<char>
    decreases s.len(),
{
    if s.len() > 0 && is_space(s[0]) {
        trim_start(s.skip(1))
    } else {
        s
    }
}

/// `s` without its trailing whitespace (`str::trim_end`).
pub open spec fn trim_end(s: Seq<char>) -> Seq<char>
    decreases s.len(),
{
    if s.len() > 0 && is_space(s.last()) {
        trim_end(s.drop_last())
    } else {
        s
    }
}

/// Trimming whitespace drops only whitespace, and all of it at that end:
/// `trim_start` leaves a suffix of the text that does not start with
/// whitespace, after a run of whitespace; `trim_end` leaves a prefix that
/// does not end with whitespace, before a run of whitespace.
pub proof fn trims_drop_exactly_the_outer_whitespace(s: Seq<char>)
    ensures
        exists|k: int|
            0 <= k <= s.len() && trim_start(s) == s.skip(k) && forall|i: int| 0 <= i < k ==> is_space(#[trigger] s[i]),
        trim_start(s).len() > 0 ==> !is_space(trim_start(s)[0]),
        exists|k: int|
            0 <= k <= s.len() && trim_end(s) == s.take(k) && forall|i: int| k <= i < s.len() ==> is_space(#[trigger] s[i]),
        trim_end(s).len() > 0 ==> !is_space(trim_end(s).last()),
    decreases s.len(),
{
    if s.len() > 0 {
        if is_space(s[0]) {
            trims_drop_exactly_the_outer_whitespace(s.skip(1));
            let k = choose|k: int|
                0 <= k <= s.skip(1).len() && trim_start(s.skip(1)) == s.skip(1).skip(k) && forall|i: int|
                    0 <= i < k ==> is_space(#[trigger] s.skip(1)[i]);
            assert(s.skip(1).skip(k) =~= s.skip(k + 1));
            assert forall|i: int| 0 <= i < k + 1 implies is_space(#[trigger] s[i]) by {
                if i > 0 {
                    assert(s[i] == s.skip(1)[i - 1]);
                }
            }
        } else {
            assert(s.skip(0) =~= s);
        }
        if is_space(s.last()) {
            trims_drop_exactly_the_outer_whitespace(s.drop_last());
            let k = choose|k: int|
                0 <= k <= s.drop_last().len() && trim_end(s.drop_last()) == s.drop_last().take(k) && forall|i: int|
                    k <= i < s.drop_last().len() ==> is_space(#[trigger] s.drop_last()[i]);
            assert(s.drop_last().take(k) =~= s.take(k));
            assert forall|i: int| k <= i < s.len() implies is_space(#[trigger] s[i]) by {
                if i < s.len() - 1 {
                    assert(s[i] == s.drop_last()[i]);
                }
            }
        } else {
            assert(s.take(s.len() as int) =~= s);
        }
    } else {
        assert(s.skip(0) =~= s);
        assert(s.take(0) =~= s);
    }
}

/// The first `k` blocks of `s`, each as long as `pat`, are `pat`.
pub open spec fn repeats_at_start(s: Seq<char>, pat: Seq<char>, k: int) -> bool {
    0 <= k && k * pat.len() <= s.len() && forall|j: int| 0 <= j < k ==> #[trigger] occurs_at(s, pat, j * pat.len())
}

/// The last `k` blocks of `s`, each as long as `pat`, are `pat`.
pub open spec fn repeats_at_end(s: Seq<char>, pat: Seq<char>, k: int) -> bool {
    0 <= k && k * pat.len() <= s.len() && forall|j: int|
        0 <= j < k ==> #[trigger] occurs_at(s, pat, s.len() - (j + 1) * pat.len())
}

/// Trimming a non-empty pattern at the start drops whole repetitions of it
/// and leaves a text that does not start with it; at the end likewise.
pub proof fn trim_matches_drop_whole_repetitions(s: Seq<char>, pat: Seq<char>)
    requires
        pat.len() > 0,
    ensures
        exists|k: int| #[trigger] repeats_at_start(s, pat, k) && trim_start_matches(s, pat) == s.skip(k * pat.len()),
        !occurs_at(trim_start_matches(s, pat), pat, 0),
        exists|k: int|
            #[trigger] repeats_at_end(s, pat, k) && trim_end_matches(s, pat) == s.take(s.len() - k * pat.len()),
        !occurs_at(trim_end_matches(s, pat), pat, trim_end_matches(s, pat).len() - pat.len()),
    decreases s.len(),
{
    let p = pat.len() as int;
    if occurs_at(s, pat, 0) {
        let t = s.skip(p);
        trim_matches_drop_whole_repetitions(t, pat);
        let k = choose|k: int| #[trigger] repeats_at_start(t, pat, k) && trim_start_matches(t, pat) == t.skip(k * pat.len());
        assert((k + 1) * p == k * p + p) by (nonlinear_arith);
        assert(t.skip(k * p) =~= s.skip((k + 1) * p));
        assert forall|j: int| 0 <= j < k + 1 implies #[trigger] occurs_at(s, pat, j * pat.len()) by {
            if j > 0 {
                assert(occurs_at(t, pat, (j - 1) * p));
                assert((j - 1) * p + p == j * p) by (nonlinear_arith);
                assert(t.subrange((j - 1) * p, (j - 1) * p + p) =~= s.subrange(j * p, j * p + p));
            } else {
                assert(0 * p == 0);
            }
        }
        assert(repeats_at_start(s, pat, k + 1));
    } else {
        assert(s.skip(0int * p) =~= s);
        assert(repeats_at_start(s, pat, 0));
    }
    if occurs_at(s, pat, s.len() - p) {
        let t = s.take(s.len() - p);
        trim_matches_drop_whole_repetitions(t, pat);
        let k = choose|k: int|
            #[trigger] repeats_at_end(t, pat, k) && trim_end_matches(t, pat) == t.take(t.len() - k * pat.len());
        assert((k + 1) * p == k * p + p) by (nonlinear_arith);
        assert(t.take(t.len() - k * p) =~= s.take(s.len() - (k + 1) * p));
        assert forall|j: int| 0 <= j < k + 1 implies #[trigger] occurs_at(s, pat, s.len() - (j + 1) * pat.len()) by {
            if j > 0 {
                assert(occurs_at(t, pat, t.len() - ((j - 1) + 1) * pat.len()));
                assert(t.len() - ((j - 1) + 1) * pat.len() == t.len() - j * p);
                assert(t.len() - j * p == s.len() - (j + 1) * p) by (nonlinear_arith)
                    requires
                        t.len() == s.len() - p,
                ;
                assert(t.len() - j * p + p <= t.len()) by (nonlinear_arith)
                    requires
                        j >= 1,
                        p > 0,
                ;
                assert(t.subrange(t.len() - j * p, t.len() - j * p + p) =~= s.subrange(
                    s.len() - (j + 1) * p,
                    s.len() - (j + 1) * p + p,
                ));
            } else {
                assert((j + 1) * pat.len() == p) by (nonlinear_arith)
                    requires
                        j == 0,
                        p == pat.len(),
                ;
            }
        }
        assert(repeats_at_end(s, pat, k + 1));
    } else {
        assert(s.take(s.len() - 0int * p) =~= s);
        assert(repeats_at_end(s, pat, 0));
    }
}

pub fn is_space_exec(c: char) -> (res: bool)
    ensures
        res == is_space(c),
{
    ('\u{9}' <= c && c <= '\u{d}') || c == ' ' || c == '\u{85}' || c == '\u{a0}' || c == '\u{1680}'
        || ('\u{2000}' <= c && c <= '\u{200a}') || c == '\u{2028}' || c == '\u{2029}' || c == '\u{202f}'
        || c == '\u{205f}' || c == '\u{3000}'
}

/// Whether `pat` occurs in `s` at position `i`.
pub fn occurs_at_exec(s: &Vec<char>, pat: &Vec<char>, i: usize) -> (res: bool)
    ensures
        res == occurs_at(s@, pat@, i as int),
{
    if i > s.len() || pat.len() > s.len() - i {
        return false;
    }
    let mut k: usize = 0;
    while k < pat.len()
        invariant
            k <= pat@.len(),
            i + pat@.len() <= s@.len(),
            s@.len() <= usize::MAX,
            forall|t: int| 0 <= t < k ==> s@[i + t] == pat@[t],
        decreases pat@.len() - k,
    {
        assert(i + k < s@.len());
        if s[i + k] != pat[k] {
            assert(s@.subrange(i as int, i + pat@.len())[k as int] != pat@[k as int]);
            return false;
        }
        k += 1;
    }
    assert(s@.subrange(i as int, i + pat@.len()) == pat@);
    true
}

/// Whether `pat` occurs in `s`.
pub fn contains_exec(s: &Vec<char>, pat: &Vec<char>) -> (res: bool)
    ensures
        res == contains_seq(s@, pat@),
{
    let mut i: usize = 0;
    while i < s.len()
        invariant
            i <= s@.len(),
            forall|t: int| 0 <= t < i ==> !#[trigger] occurs_at(s@, pat@, t),
        decreases s@.len() - i,
    {
        if occurs_at_exec(s, pat, i) {
            return true;
        }
        i += 1;
    }
    if occurs_at_exec(s, pat, i) {
        return true;
    }
    proof {
        assert forall|t: int| !#[trigger] occurs_at(s@, pat@, t) by {
            if t > s@.len() || t < 0 {
            } else if t < i {
            } else {
                assert(t == i);
            }
        }
    }
    false
}

proof fn lemma_skip_skip(s: Seq<char>, a: int, b: int)
    requires
        0 <= a,
        0 <= b,
        a + b <= s.len(),
    ensures
        s.skip(a).skip(b) == s.skip(a + b),
{
    assert(s.skip(a).skip(b) =~= s.skip(a + b));
}

proof fn lemma_occurs_shift(s: Seq<char>, pat: Seq<char>, i: int)
    requires
        0 <= i <= s.len(),
    ensures
        occurs_at(s.skip(i), pat, 0) == occurs_at(s, pat, i),
{
    if i + pat.len() <= s.len() {
        assert(s.skip(i).subrange(0, pat.len() as int) =~= s.subrange(i, i + pat.len()));
    }
}

/// `s` with each non-overlapping occurrence of the non-empty `pat` replaced
/// by `rep`, scanning from the left.
pub fn replace_all_exec(s: &Vec<char>, pat: &Vec<char>, rep: &Vec<char>) -> (res: Vec<char>)
    requires
        pat@.len() > 0,
    ensures
        res@ == replace_all(s@, pat@, rep@),
{
    let mut res: Vec<char> = Vec::new();
    let mut i: usize = 0;
    proof {
        assert(s@.skip(0) == s@);
        assert(res@ + replace_all(s@, pat@, rep@) == replace_all(s@, pat@, rep@));
    }
    while i < s.len()
        invariant
            i <= s@.len(),
            pat@.len() > 0,
            res@ + replace_all(s@.skip(i as int), pat@, rep@) == replace_all(s@, pat@, rep@),
        decreases s@.len() - i,
    {
        let ghost rest = s@.skip(i as int);
        proof {
            lemma_occurs_shift(s@, pat@, i as int);
            assert(rest[0] == s@[i as int]);
        }
        if occurs_at_exec(s, pat, i) {
            let mut k: usize = 0;
            let ghost before = res@;
            while k < rep.len()
                invariant
                    k <= rep@.len(),
                    res@ == before + rep@.take(k as int),
                decreases rep@.len() - k,
            {
                res.push(rep[k]);
                assert(rep@.take(k + 1) == rep@.take(k as int).push(rep@[k as int]));
                k += 1;
            }
            proof {
                assert(rep@.take(rep@.len() as int) == rep@);
                lemma_skip_skip(s@, i as int, pat@.len() as int);
                assert(before + rep@ + replace_all(rest.skip(pat@.len() as int), pat@, rep@) == res@ + replace_all(
                    s@.skip(i + pat@.len()),
                    pat@,
                    rep@,
                ));
            }
            i = i + pat.len();
        } else {
            let ghost before = res@;
            res.push(s[i]);
            proof {
                lemma_skip_skip(s@, i as int, 1);
                assert(before + (seq![rest[0]] + replace_all(rest.skip(1), pat@, rep@)) == res@ + replace_all(
                    s@.skip(i + 1),
                    pat@,
                    rep@,
                ));
            }
            i = i + 1;
        }
    }
    proof {
        assert(s@.skip(i as int).len() == 0);
        assert(res@ + Seq::<char>::empty() == res@);
    }
    res
}

/// `s` without `pat` at its start, if it starts with it.
pub fn strip_prefix_exec(s: &Vec<char>, pat: &Vec<char>) -> (res: Vec<char>)
    ensures
        res@ == strip_prefix(s@, pat@),
{
    if occurs_at_exec(s, pat, 0) {
        slice_from(s, pat.len())
    } else {
        copy_chars(s)
    }
}

/// `s` without `pat` at its end, if it ends with it.
pub fn strip_suffix_exec(s: &Vec<char>, pat: &Vec<char>) -> (res: Vec<char>)
    ensures
        res@ == strip_suffix(s@, pat@),
{
    if pat.len() <= s.len() && occurs_at_exec(s, pat, s.len() - pat.len()) {
        slice_to(s, s.len() - pat.len())
    } else {
        copy_chars(s)
    }
}

/// A copy of the characters.
pub fn copy_chars(s: &Vec<char>) -> (res: Vec<char>)
    ensures
        res@ == s@,
{
    slice_from(s, 0)
}

/// The characters of `s` from position `a` on.
pub fn slice_from(s: &Vec<char>, a: usize) -> (res: Vec<char>)
    requires
        a <= s@.len(),
    ensures
        res@ == s@.skip(a as int),
{
    let mut res: Vec<char> = Vec::new();
    let mut i: usize = a;
    while i < s.len()
        invariant
            a <= i <= s@.len(),
            res@ == s@.subrange(a as int, i as int),
        decreases s@.len() - i,
    {
        res.push(s[i]);
        assert(s@.subrange(a as int, i + 1) == s@.subrange(a as int, i as int).push(s@[i as int]));
        i += 1;
    }
    assert(s@.subrange(a as int, s@.len() as int) == s@.skip(a as int));
    res
}

/// The first `b` characters of `s`.
pub fn slice_to(s: &Vec<char>, b: usize) -> (res: Vec<char>)
    requires
        b <= s@.len(),
    ensures
        res@ == s@.take(b as int),
{
    let mut res: Vec<char> = Vec::new();
    let mut i: usize = 0;
    while i < b
        invariant
            i <= b <= s@.len(),
            res@ == s@.take(i as int),
        decreases b - i,
    {
        res.push(s[i]);
        assert(s@.take(i + 1) == s@.take(i as int).push(s@[i as int]));
        i += 1;
    }
    res
}

/// `s` with every leading repetition of the non-empty `pat` removed.
pub fn trim_start_matches_exec(s: &Vec<char>, pat: &Vec<char>) -> (res: Vec<char>)
    requires
        pat@.len() > 0,
    ensures
        res@ == trim_start_matches(s@, pat@),
{
    let mut i: usize = 0;
    let slen = s.len();
    assert(s@.skip(0) == s@);
    while occurs_at_exec(s, pat, i)
        invariant
            i <= s@.len(),
            slen == s@.len(),
            pat@.len() > 0,
            trim_start_matches(s@.skip(i as int), pat@) == trim_start_matches(s@, pat@),
        decreases s@.len() - i,
    {
        proof {
            lemma_occurs_shift(s@, pat@, i as int);
            lemma_skip_skip(s@, i as int, pat@.len() as int);
        }
        i = i + pat.len();
    }
    proof {
        lemma_occurs_shift(s@, pat@, i as int);
    }
    slice_from(s, i)
}

proof fn lemma_occurs_take(s: Seq<char>, pat: Seq<char>, n: int)
    requires
        0 <= n <= s.len(),
    ensures
        occurs_at(s.take(n), pat, n - pat.len()) == occurs_at(s, pat, n - pat.len()),
{
    if 0 <= n - pat.len() {
        assert(s.take(n).subrange(n - pat.len(), n) =~= s.subrange(n - pat.len(), n));
    }
}

/// `s` with every trailing repetition of the non-empty `pat` removed.
pub fn trim_end_matches_exec(s: &Vec<char>, pat: &Vec<char>) -> (res: Vec<char>)
    requires
        pat@.len() > 0,
    ensures
        res@ == trim_end_matches(s@, pat@),
{
    let mut n: usize = s.len();
    proof {
        assert(s@.take(n as int) == s@);
    }
    while pat.len() <= n && occurs_at_exec(s, pat, n - pat.len())
        invariant
            n <= s@.len(),
            pat@.len() > 0,
            trim_end_matches(s@.take(n as int), pat@) == trim_end_matches(s@, pat@),
        decreases n,
    {
        proof {
            lemma_occurs_take(s@, pat@, n as int);
            assert(s@.take(n as int).take(n - pat@.len()) == s@.take(n - pat@.len()));
        }
        n = n - pat.len();
    }
    proof {
        lemma_occurs_take(s@, pat@, n as int);
    }
    slice_to(s, n)
}

/// `s` without its leading whitespace.
pub fn trim_start_exec(s: &Vec<char>) -> (res: Vec<char>)
    ensures
        res@ == trim_start(s@),
{
    let mut i: usize = 0;
    assert(s@.skip(0) == s@);
    while i < s.len() && is_space_exec(s[i])
        invariant
            i <= s@.len(),
            trim_start(s@.skip(i as int)) == trim_start(s@),
        decreases s@.len() - i,
    {
        proof {
            lemma_skip_skip(s@, i as int, 1);
        }
        i += 1;
    }
    slice_from(s, i)
}

/// `s` without its trailing whitespace.
pub fn trim_end_exec(s: &Vec<char>) -> (res: Vec<char>)
    ensures
        res@ == trim_end(s@),
{
    let mut n: usize = s.len();
    proof {
        assert(s@.take(n as int) == s@);
    }
    while n > 0 && is_space_exec(s[n - 1])
        invariant
            n <= s@.len(),
            trim_end(s@.take(n as int)) == trim_end(s@),
        decreases n,
    {
        proof {
            assert(s@.take(n as int).drop_last() == s@.take(n - 1));
        }
        n -= 1;
    }
    slice_to(s, n)
}

/// The decimal digit of `d < 10`.
pub open spec fn digit_char(d: nat) -> char {
    (d + 48) as char
}

/// The decimal digits of `n` (no leading zeros; `0` for zero).
pub open spec fn digits_of(n: nat) -> Seq<char>
    decreases n,
{
    if n < 10 {
        seq![digit_char(n)]
    } else {
        digits_of(n / 10).push(digit_char(n % 10))
    }
}

/// The decimal text of an integer, with `-` before a negative one (as
/// `Display` writes it).
pub open spec fn decimal_text(i: int) -> Seq<char> {
    if i < 0 {
        seq!['-'] + digits_of((-i) as nat)
    } else {
        digits_of(i as nat)
    }
}

fn digits_exec(n: u64) -> (res: Vec<char>)
    ensures
        res@ == digits_of(n as nat),
    decreases n,
{
    if n < 10 {
        let c = ((n as u8) + 48u8) as char;
        let mut v: Vec<char> = Vec::new();
        v.push(c);
        v
    } else {
        let mut v = digits_exec(n / 10);
        let d = (n % 10) as u8;
        v.push((d + 48u8) as char);
        v
    }
}

/// The decimal text of an integer.
pub fn decimal_string(i: i64) -> (res: String)
    ensures
        res@ == decimal_text(i as int),
{
    if i < 0 {
        let mag: u64 = if i == i64::MIN {
            9223372036854775808u64
        } else {
            (-i) as u64
        };
        let d = digits_exec(mag);
        let mut v: Vec<char> = Vec::new();
        v.push('-');
        let mut k: usize = 0;
        while k < d.len()
            invariant
                k <= d@.len(),
                v@ == seq!['-'] + d@.take(k as int),
            decreases d@.len() - k,
        {
            v.push(d[k]);
            assert(d@.take(k + 1) == d@.take(k as int).push(d@[k as int]));
            k += 1;
        }
        assert(d@.take(d@.len() as int) == d@);
        string_of(&v)
    } else {
        string_of(&digits_exec(i as u64))
    }
}

/// Appends the characters of `t` to `s`.
pub fn push_text(s: &mut String, t: &str)
    ensures
        final(s)@ == old(s)@ + t@,
{
    let cs = chars_of(t);
    let mut k: usize = 0;
    while k < cs.len()
        invariant
            k <= cs@.len(),
            cs@ == t@,
            s@ == old(s)@ + cs@.take(k as int),
        decreases cs@.len() - k,
    {
        push_char(s, cs[k]);
        assert(cs@.take(k + 1) == cs@.take(k as int).push(cs@[k as int]));
        k += 1;
    }
    assert(cs@.take(cs@.len() as int) == cs@);
}

/// Every character is an ASCII digit.
pub open spec fn all_digits(s: Seq<char>) -> bool {
    forall|i: int| 0 <= i < s.len() ==> '0' <= #[trigger] s[i] && s[i] <= '9'
}

/// The value of a string of decimal digits.
pub open spec fn digits_value(s: Seq<char>) -> int
    decreases s.len(),
{
    if s.len() == 0 {
        0
    } else {
        digits_value(s.drop_last()) * 10 + (s.last() as int - 48)
    }
}

/// `i32::from_str`: an optional `+` or `-`, then one or more decimal
/// digits, with a value in range.
pub open spec fn parse_i32(s: Seq<char>) -> Option<i32> {
    let neg = s.len() > 0 && s[0] == '-';
    let body = if s.len() > 0 && (s[0] == '-' || s[0] == '+') { s.skip(1) } else { s };
    let v = if neg { -digits_value(body) } else { digits_value(body) };
    if body.len() == 0 || !all_digits(body) || v < i32::MIN || v > i32::MAX {
        None
    } else {
        Some(v as i32)
    }
}

proof fn lemma_digits_value_nonneg(s: Seq<char>)
    requires
        all_digits(s),
    ensures
        digits_value(s) >= 0,
    decreases s.len(),
{
    if s.len() > 0 {
        assert(all_digits(s.drop_last())) by {
            assert forall|i: int| 0 <= i < s.drop_last().len() implies '0' <= #[trigger] s.drop_last()[i] && s.drop_last()[i] <= '9' by {
                assert(s.drop_last()[i] == s[i]);
            }
        }
        lemma_digits_value_nonneg(s.drop_last());
    }
}

/// Parses an `i32` as `str::parse::<i32>` does.
pub fn parse_i32_exec(s: &Vec<char>) -> (res: Option<i32>)
    ensures
        res == parse_i32(s@),
{
    let neg = s.len() > 0 && s[0] == '-';
    let start: usize = if s.len() > 0 && (s[0] == '-' || s[0] == '+') { 1 } else { 0 };
    let ghost body = if s@.len() > 0 && (s@[0] == '-' || s@[0] == '+') { s@.skip(1) } else { s@ };
    assert(body == s@.skip(start as int));
    if start >= s.len() {
        return None;
    }
    let mut acc: i64 = 0;
    let mut big = false;
    let mut i: usize = start;
    while i < s.len()
        invariant
            start <= i <= s@.len(),
            body == s@.skip(start as int),
            body == (if s@.len() > 0 && (s@[0] == '-' || s@[0] == '+') { s@.skip(1) } else { s@ }),
            all_digits(s@.subrange(start as int, i as int)),
            big ==> digits_value(s@.subrange(start as int, i as int)) > 2147483648,
            !big ==> acc == digits_value(s@.subrange(start as int, i as int)) && 0 <= acc <= 2147483648,
        decreases s@.len() - i,
    {
        let c = s[i];
        let ghost pre = s@.subrange(start as int, i as int);
        let ghost nxt = s@.subrange(start as int, i + 1);
        proof {
            assert(nxt.drop_last() == pre);
            assert(nxt.last() == c);
        }
        if c < '0' || c > '9' {
            proof {
                assert(!all_digits(body)) by {
                    assert(body[i - start] == c);
                }
            }
            return None;
        }
        proof {
            assert(all_digits(nxt)) by {
                assert forall|k: int| 0 <= k < nxt.len() implies '0' <= #[trigger] nxt[k] && nxt[k] <= '9' by {
                    if k < pre.len() {
                        assert(nxt[k] == pre[k]);
                    }
                }
            }
            lemma_digits_value_nonneg(pre);
        }
        let d = (c as u32 - 48) as i64;
        if !big {
            let next = acc * 10 + d;
            if next > 2147483648 {
                big = true;
            } else {
                acc = next;
            }
        }
        i += 1;
    }
    proof {
        assert(s@.subrange(start as int, s@.len() as int) == body);
    }
    if big {
        return None;
    }
    if neg {
        Some((-acc) as i32)
    } else if acc > 2147483647 {
        None
    } else {
        Some(acc as i32)
    }
}

/// The text between the first and the second `:` (or the end), when the
/// text has a `:` (`str::split(':').nth(1)`).
pub open spec fn second_field(s: Seq<char>) -> Option<Seq<char>> {
    match first_from(s, ':', 0) {
        Some(a) => {
            let b = match first_from(s, ':', a + 1) {
                Some(b) => b,
                None => s.len() as int,
            };
            Some(s.subrange(a + 1, b))
        },
        None => None,
    }
}

/// The first position at or after `k` that holds `c`.
pub open spec fn first_from(s: Seq<char>, c: char, k: int) -> Option<int>
    decreases s.len() - k,
{
    if k < 0 || k >= s.len() {
        None
    } else if s[k] == c {
        Some(k)
    } else {
        first_from(s, c, k + 1)
    }
}

proof fn lemma_first_from(s: Seq<char>, c: char, k: int)
    requires
        0 <= k,
    ensures
        first_from(s, c, k) matches Some(i) ==> k <= i < s.len() && s[i] == c,
    decreases s.len() - k,
{
    if k < s.len() && s[k] != c {
        lemma_first_from(s, c, k + 1);
    }
}

fn first_from_exec(s: &Vec<char>, c: char, k: usize) -> (res: Option<usize>)
    ensures
        match res {
            Some(i) => first_from(s@, c, k as int) == Some(i as int),
            None => first_from(s@, c, k as int) is None,
        },
{
    let mut i: usize = k;
    while i < s.len()
        invariant
            k <= i,
            first_from(s@, c, k as int) == first_from(s@, c, i as int),
        decreases s@.len() - i,
    {
        if s[i] == c {
            return Some(i);
        }
        i += 1;
    }
    None
}

/// The text between the first and the second `:` (or the end).
pub fn second_field_exec(s: &Vec<char>) -> (res: Option<Vec<char>>)
    ensures
        match res {
            Some(f) => second_field(s@) == Some(f@),
            None => second_field(s@) is None,
        },
{
    let slen = s.len();
    match first_from_exec(s, ':', 0) {
        Some(a) => {
            proof {
                lemma_first_from(s@, ':', 0);
            }
            let b = match first_from_exec(s, ':', a + 1) {
                Some(b) => b,
                None => s.len(),
            };
            proof {
                lemma_first_from(s@, ':', a + 1);
            }
            let mut f: Vec<char> = Vec::new();
            let mut i: usize = a + 1;
            while i < b
                invariant
                    a + 1 <= i <= b <= s@.len(),
                    f@ == s@.subrange(a + 1, i as int),
                decreases b - i,
            {
                f.push(s[i]);
                assert(s@.subrange(a + 1, i + 1) == s@.subrange(a + 1, i as int).push(s@[i as int]));
                i += 1;
            }
            Some(f)
        },
        None => None,
    }
}

/// Whether two texts are equal.
pub fn text_eq(a: &str, b: &str) -> (res: bool)
    ensures
        res == (a@ == b@),
{
    let x = chars_of(a);
    let y = chars_of(b);
    if x.len() != y.len() {
        return false;
    }
    let mut i: usize = 0;
    while i < x.len()
        invariant
            i <= x@.len(),
            x@.len() == y@.len(),
            x@ == a@,
            y@ == b@,
            forall|k: int| 0 <= k < i ==> x@[k] == y@[k],
        decreases x@.len() - i,
    {
        if x[i] != y[i] {
            return false;
        }
        i += 1;
    }
    assert(x@ =~= y@);
    true
}

/// `i64::from_str`: an optional `+` or `-`, then one or more decimal
/// digits, with a value in range.
pub open spec fn parse_i64(s: Seq<char>) -> Option<i64> {
    let neg = s.len() > 0 && s[0] == '-';
    let body = if s.len() > 0 && (s[0] == '-' || s[0] == '+') { s.skip(1) } else { s };
    let v = if neg { -digits_value(body) } else { digits_value(body) };
    if body.len() == 0 || !all_digits(body) || v < i64::MIN || v > i64::MAX {
        None
    } else {
        Some(v as i64)
    }
}

/// Parses an `i64` as `str::parse::<i64>` does.
pub fn parse_i64_exec(s: &Vec<char>) -> (res: Option<i64>)
    ensures
        res == parse_i64(s@),
{
    let neg = s.len() > 0 && s[0] == '-';
    let start: usize = if s.len() > 0 && (s[0] == '-' || s[0] == '+') { 1 } else { 0 };
    let ghost body = if s@.len() > 0 && (s@[0] == '-' || s@[0] == '+') { s@.skip(1) } else { s@ };
    assert(body == s@.skip(start as int));
    if start >= s.len() {
        return None;
    }
    let mut acc: i128 = 0;
    let mut big = false;
    let mut i: usize = start;
    while i < s.len()
        invariant
            start <= i <= s@.len(),
            body == s@.skip(start as int),
            body == (if s@.len() > 0 && (s@[0] == '-' || s@[0] == '+') { s@.skip(1) } else { s@ }),
            all_digits(s@.subrange(start as int, i as int)),
            big ==> digits_value(s@.subrange(start as int, i as int)) > 9223372036854775808,
            !big ==> acc == digits_value(s@.subrange(start as int, i as int)) && 0 <= acc <= 9223372036854775808,
        decreases s@.len() - i,
    {
        let c = s[i];
        let ghost pre = s@.subrange(start as int, i as int);
        let ghost nxt = s@.subrange(start as int, i + 1);
        proof {
            assert(nxt.drop_last() == pre);
            assert(nxt.last() == c);
        }
        if c < '0' || c > '9' {
            proof {
                assert(!all_digits(body)) by {
                    assert(body[i - start] == c);
                }
            }
            return None;
        }
        proof {
            assert(all_digits(nxt)) by {
                assert forall|k: int| 0 <= k < nxt.len() implies '0' <= #[trigger] nxt[k] && nxt[k] <= '9' by {
                    if k < pre.len() {
                        assert(nxt[k] == pre[k]);
                    }
                }
            }
            lemma_digits_value_nonneg(pre);
        }
        let d = (c as u32 - 48) as i128;
        if !big {
            let next = acc * 10 + d;
            if next > 9223372036854775808i128 {
                big = true;
            } else {
                acc = next;
            }
        }
        i += 1;
    }
    proof {
        assert(s@.subrange(start as int, s@.len() as int) == body);
    }
    if big {
        return None;
    }
    if neg {
        Some((-acc) as i64)
    } else if acc > 9223372036854775807i128 {
        None
    } else {
        Some(acc as i64)
    }
}

/// `s` without leading and trailing whitespace (`str::trim`).
pub open spec fn trim(s: Seq<char>) -> Seq<char> {
    trim_end(trim_start(s))
}

/// `s` without leading and trailing whitespace.
pub fn trim_exec(s: &Vec<char>) -> (res: Vec<char>)
    ensures
        res@ == trim(s@),
{
    let a = trim_start_exec(s);
    trim_end_exec(&a)
}

/// `a` sorts before `b` from position `i` on, comparing characters by
/// code point (the order of `String`, whose UTF-8 bytes keep it).
pub open spec fn lt_from(a: Seq<char>, b: Seq<char>, i: int) -> bool
    decreases a.len() - i,
{
    if i < 0 {
        false
    } else if i >= a.len() {
        i < b.len()
    } else if i >= b.len() {
        false
    } else if a[i] != b[i] {
        (a[i] as int) < (b[i] as int)
    } else {
        lt_from(a, b, i + 1)
    }
}

/// `a` sorts before `b`.
pub open spec fn text_lt(a: Seq<char>, b: Seq<char>) -> bool {
    lt_from(a, b, 0)
}

/// No text sorts before itself.
pub proof fn lemma_lt_irreflexive(a: Seq<char>, i: int)
    requires
        0 <= i,
    ensures
        !lt_from(a, a, i),
    decreases a.len() - i,
{
    if i < a.len() {
        lemma_lt_irreflexive(a, i + 1);
    }
}

/// Of two texts equal before `i`, and different, one sorts first.
pub proof fn lemma_lt_total(a: Seq<char>, b: Seq<char>, i: int)
    requires
        0 <= i <= a.len(),
        i <= b.len(),
        a.subrange(0, i) == b.subrange(0, i),
        a != b,
    ensures
        lt_from(a, b, i) || lt_from(b, a, i),
    decreases a.len() - i,
{
    if i < a.len() && i < b.len() && a[i] == b[i] {
        assert(a.subrange(0, i + 1) =~= a.subrange(0, i).push(a[i]));
        assert(b.subrange(0, i + 1) =~= b.subrange(0, i).push(b[i]));
        lemma_lt_total(a, b, i + 1);
    } else if i >= a.len() && i >= b.len() {
        assert(a =~= a.subrange(0, i));
        assert(b =~= b.subrange(0, i));
    } else if i < a.len() && i < b.len() {
        let x = a[i] as int;
        let y = b[i] as int;
        assert(x != y);
    }
}

/// Of two different texts, one sorts first.
pub proof fn lemma_text_lt_total(a: Seq<char>, b: Seq<char>)
    requires
        a != b,
    ensures
        text_lt(a, b) || text_lt(b, a),
{
    assert(a.subrange(0, 0) =~= b.subrange(0, 0));
    lemma_lt_total(a, b, 0);
}

/// Sorting first is transitive.
pub proof fn lemma_lt_transitive(a: Seq<char>, b: Seq<char>, c: Seq<char>, i: int)
    requires
        0 <= i,
        lt_from(a, b, i),
        lt_from(b, c, i),
    ensures
        lt_from(a, c, i),
    decreases a.len() - i,
{
    if i < a.len() && i < b.len() && i < c.len() && a[i] == b[i] && b[i] == c[i] {
        lemma_lt_transitive(a, b, c, i + 1);
    }
}

/// Sorting first is asymmetric.
pub proof fn lemma_lt_asymmetric(a: Seq<char>, b: Seq<char>, i: int)
    requires
        0 <= i,
        lt_from(a, b, i),
    ensures
        !lt_from(b, a, i),
    decreases a.len() - i,
{
    if i < a.len() && i < b.len() && a[i] == b[i] {
        lemma_lt_asymmetric(a, b, i + 1);
    }
}

/// Whether `a` sorts before `b`.
pub fn text_lt_exec(a: &str, b: &str) -> (res: bool)
    ensures
        res == text_lt(a@, b@),
{
    let x = chars_of(a);
    let y = chars_of(b);
    let mut i: usize = 0;
    while i < x.len() && i < y.len() && x[i] == y[i]
        invariant
            i <= x@.len(),
            i <= y@.len(),
            x@ == a@,
            y@ == b@,
            lt_from(a@, b@, 0) == lt_from(a@, b@, i as int),
        decreases x@.len() - i,
    {
        i += 1;
    }
    if i >= x.len() {
        i < y.len()
    } else if i >= y.len() {
        false
    } else {
        x[i] < y[i]
    }
}


/// The digits of a number are decimal digits that read back as it.
pub proof fn lemma_digits_of(n: nat)
    ensures
        digits_of(n).len() > 0,
        all_digits(digits_of(n)),
        digits_value(digits_of(n)) == n,
    decreases n,
{
    if n < 10 {
        let s = digits_of(n);
        assert(s.drop_last() =~= Seq::<char>::empty());
        assert(digit_char(n) as int == n + 48);
        assert(s.last() == digit_char(n));
        assert(digits_value(s) == digits_value(s.drop_last()) * 10 + (s.last() as int - 48));
        assert(digits_value(Seq::<char>::empty()) == 0);
    } else {
        lemma_digits_of(n / 10);
        let s = digits_of(n);
        assert(s.drop_last() =~= digits_of(n / 10));
        assert(digit_char(n % 10) as int == n % 10 + 48);
        assert(s.last() == digit_char(n % 10));
        assert(digits_value(s) == digits_value(s.drop_last()) * 10 + (s.last() as int - 48));
        assert((n / 10) * 10 + n % 10 == n) by (nonlinear_arith);
        assert forall|i: int| 0 <= i < s.len() implies '0' <= #[trigger] s[i] && s[i] <= '9' by {
            if i < s.len() - 1 {
                assert(s[i] == digits_of(n / 10)[i]);
            }
        }
    }
}

/// The decimal text of a number holds no character but digits and `-`.
pub proof fn lemma_decimal_text_chars(i: int, c: char)
    requires
        c != '-',
        !('0' <= c && c <= '9'),
    ensures
        !decimal_text(i).contains(c),
{
    let d = if i < 0 { (-i) as nat } else { i as nat };
    lemma_digits_of(d);
    if decimal_text(i).contains(c) {
        let k = choose|k: int| 0 <= k < decimal_text(i).len() && decimal_text(i)[k] == c;
        if i < 0 {
            assert(decimal_text(i)[k] == if k == 0 { '-' } else { digits_of(d)[k - 1] });
        } else {
            assert(decimal_text(i)[k] == digits_of(d)[k]);
        }
    }
}

/// `i32::from_str` reads back the decimal text of an `i32`.
pub proof fn lemma_parse_i32_decimal(f: i32)
    ensures
        parse_i32(decimal_text(f as int)) == Some(f),
{
    let s = decimal_text(f as int);
    if f < 0 {
        let d = (-(f as int)) as nat;
        lemma_digits_of(d);
        assert(s.skip(1) =~= digits_of(d));
    } else {
        lemma_digits_of(f as nat);
        let d = digits_of(f as nat);
        assert('0' <= d[0] && d[0] <= '9');
    }
}

/// `i64::from_str` reads back the decimal text of an `i64`.
pub proof fn lemma_parse_i64_decimal(x: i64)
    ensures
        parse_i64(decimal_text(x as int)) == Some(x),
{
    let s = decimal_text(x as int);
    if x < 0 {
        let d = (-(x as int)) as nat;
        lemma_digits_of(d);
        assert(s.skip(1) =~= digits_of(d));
    } else {
        lemma_digits_of(x as nat);
        let d = digits_of(x as nat);
        assert('0' <= d[0] && d[0] <= '9');
    }
}

proof fn lemma_first_from_at(s: Seq<char>, c: char, k: int, j: int)
    requires
        0 <= k <= j < s.len(),
        s[j] == c,
        forall|t: int| k <= t < j ==> s[t] != c,
    ensures
        first_from(s, c, k) == Some(j),
    decreases j - k,
{
    if k < j {
        lemma_first_from_at(s, c, k + 1, j);
    }
}

proof fn lemma_first_from_none(s: Seq<char>, c: char, k: int)
    requires
        0 <= k,
        forall|t: int| k <= t < s.len() ==> s[t] != c,
    ensures
        first_from(s, c, k) is None,
    decreases s.len() - k,
{
    if k < s.len() {
        lemma_first_from_none(s, c, k + 1);
    }
}

/// The second `:`-separated field of `a:d` followed by nothing or by a
/// further `:` field is `d`, when neither `a` nor `d` holds a `:`.
pub proof fn lemma_second_field(a: Seq<char>, d: Seq<char>, rest: Seq<char>)
    requires
        !a.contains(':'),
        !d.contains(':'),
        rest.len() == 0 || rest[0] == ':',
    ensures
        second_field(a + seq![':'] + d + rest) == Some(d),
{
    let s = a + seq![':'] + d + rest;
    let p = a.len() as int;
    assert forall|t: int| 0 <= t < p implies s[t] != ':' by {
        assert(s[t] == a[t]);
    }
    lemma_first_from_at(s, ':', 0, p);
    let e = p + 1 + d.len();
    assert forall|t: int| p + 1 <= t < e implies s[t] != ':' by {
        assert(s[t] == d[t - p - 1]);
    }
    if rest.len() == 0 {
        lemma_first_from_none(s, ':', p + 1);
        assert(s.subrange(p + 1, s.len() as int) =~= d);
    } else {
        assert(s[e] == rest[0]);
        lemma_first_from_at(s, ':', p + 1, e);
        assert(s.subrange(p + 1, e) =~= d);
    }
}
} // verus!
