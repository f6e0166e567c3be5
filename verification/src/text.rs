//! Tokenization: lowercase a document's text and split it into maximal runs
//! of alphanumeric characters; everything else separates tokens.

use vstd::prelude::*;

verus! {

/// What `char::is_alphanumeric` returns: a classification that depends on
/// the character alone.
pub uninterp spec fn is_alnum_char(c: char) -> bool;

/// What `str::to_lowercase` returns: a text that depends on the input
/// characters alone.
pub uninterp spec fn lower_of(s: Seq<char>) -> Seq<char>;

/// Relies on char::is_alphanumeric, the alphanumeric classification used to
/// delimit tokens.
#[verifier::external_body]
fn is_alnum(c: char) -> (r: bool)
    ensures
        r == is_alnum_char(c),
{
    c.is_alphanumeric()
}

/// Relies on str::to_lowercase, which lowercases a text. An empty text
/// stays empty, and lowercasing keeps non-alphanumeric characters
/// non-alphanumeric: only cased letters change under case mapping, and
/// those are alphabetic.
#[verifier::external_body]
fn lowercase(s: &str) -> (r: String)
    ensures
        r@ == lower_of(s@),
        s@.len() == 0 ==> r@.len() == 0,
        (forall|i: int| 0 <= i < s@.len() ==> !is_alnum_char(s@[i])) ==> (forall|i: int|
            0 <= i < r@.len() ==> !is_alnum_char(r@[i])),
{
    s.to_lowercase()
}

/// Length of the maximal alphanumeric prefix of `s`.
pub open spec fn run_len(s: Seq<char>) -> nat
    decreases s.len(),
{
    if s.len() == 0 || !is_alnum_char(s[0]) {
        0
    } else {
        1 + run_len(s.drop_first())
    }
}

/// The tokens of a text: its maximal runs of alphanumeric characters, in
/// order.
pub open spec fn tokens_of(s: Seq<char>) -> Seq<Seq<char>>
    decreases s.len(),
    via tokens_of_decreases
{
    if s.len() == 0 {
        Seq::empty()
    } else if !is_alnum_char(s[0]) {
        tokens_of(s.drop_first())
    } else {
        seq![s.take(run_len(s) as int)] + tokens_of(s.skip(run_len(s) as int))
    }
}

#[via_fn]
proof fn tokens_of_decreases(s: Seq<char>) {
    lemma_run_len_le(s);
}

/// The maximal alphanumeric prefix is no longer than the text.
pub proof fn lemma_run_len_le(s: Seq<char>)
    ensures
        run_len(s) <= s.len(),
    decreases s.len(),
{
    if s.len() != 0 && is_alnum_char(s[0]) {
        lemma_run_len_le(s.drop_first());
    }
}

/// A prefix of alphanumeric characters that is either the whole text or ends
/// right before a non-alphanumeric character is the maximal one.
proof fn lemma_run_len_is(s: Seq<char>, k: int)
    requires
        0 <= k <= s.len(),
        forall|i: int| 0 <= i < k ==> is_alnum_char(s[i]),
        k < s.len() ==> !is_alnum_char(s[k]),
    ensures
        run_len(s) == k,
    decreases k,
{
    if k == 0 {
    } else {
        assert(is_alnum_char(s[0]));
        let t = s.drop_first();
        assert(forall|i: int| 0 <= i < k - 1 ==> s[i + 1] == t[i] && is_alnum_char(#[trigger] t[i]));
        lemma_run_len_is(t, k - 1);
    }
}

/// Tokenizing two texts joined by a separator tokenizes each: the tokens
/// of the concatenation are the first text's tokens followed by the
/// second's.
pub proof fn lemma_tokens_of_append(a: Seq<char>, c: char, b: Seq<char>)
    requires
        !is_alnum_char(c),
    ensures
        tokens_of(a + seq![c] + b) == tokens_of(a) + tokens_of(b),
    decreases a.len(),
{
    let s = a + seq![c] + b;
    if a.len() == 0 {
        assert(s =~= seq![c] + b);
        assert(s.drop_first() =~= b);
        assert(tokens_of(s) == tokens_of(b));
        assert(tokens_of(a) + tokens_of(b) =~= tokens_of(b));
    } else if !is_alnum_char(a[0]) {
        assert(s[0] == a[0]);
        assert(s.drop_first() =~= a.drop_first() + seq![c] + b);
        lemma_tokens_of_append(a.drop_first(), c, b);
    } else {
        assert(s[0] == a[0]);
        lemma_run_len_le(a);
        let k = run_len(a) as int;
        assert(k >= 1);
        assert(forall|i: int| 0 <= i < k ==> is_alnum_char(#[trigger] a[i]) && s[i] == a[i]) by {
            lemma_run_len_props(a);
        }
        assert(k < a.len() ==> !is_alnum_char(s[k]) && s[k] == a[k]) by {
            lemma_run_len_props(a);
        }
        assert(k == a.len() ==> s[k] == c);
        lemma_run_len_is(s, k);
        assert(run_len(s) == k);
        assert(s.take(k) =~= a.take(k));
        assert(s.skip(k) =~= a.skip(k) + seq![c] + b);
        lemma_tokens_of_append(a.skip(k), c, b);
        assert(a.skip(k).len() < a.len());
        assert(tokens_of(s) == seq![a.take(k)] + (tokens_of(a.skip(k)) + tokens_of(b)));
        assert(tokens_of(a) == seq![a.take(k)] + tokens_of(a.skip(k)));
        assert(seq![a.take(k)] + (tokens_of(a.skip(k)) + tokens_of(b)) =~= (seq![a.take(k)]
            + tokens_of(a.skip(k))) + tokens_of(b));
    }
}

/// The maximal alphanumeric prefix is alphanumeric throughout and ends
/// at the first character that is not.
proof fn lemma_run_len_props(s: Seq<char>)
    ensures
        run_len(s) <= s.len(),
        forall|i: int| 0 <= i < run_len(s) ==> is_alnum_char(#[trigger] s[i]),
        run_len(s) < s.len() ==> !is_alnum_char(s[run_len(s) as int]),
    decreases s.len(),
{
    lemma_run_len_le(s);
    if s.len() != 0 && is_alnum_char(s[0]) {
        lemma_run_len_props(s.drop_first());
        let t = s.drop_first();
        assert(forall|i: int| 0 <= i < t.len() ==> #[trigger] t[i] == s[i + 1]);
        assert forall|i: int| 0 <= i < run_len(s) implies is_alnum_char(#[trigger] s[i]) by {
            if i > 0 {
                assert(t[i - 1] == s[i]);
            }
        }
    }
}

/// A text with no alphanumeric character has no tokens.
pub proof fn lemma_tokens_of_separators(s: Seq<char>)
    requires
        forall|i: int| 0 <= i < s.len() ==> !is_alnum_char(s[i]),
    ensures
        tokens_of(s).len() == 0,
    decreases s.len(),
{
    if s.len() > 0 {
        let t = s.drop_first();
        assert(forall|i: int| 0 <= i < t.len() ==> #[trigger] t[i] == s[i + 1]);
        lemma_tokens_of_separators(t);
    }
}

/// Splits `text`, lowercased, into its alphanumeric tokens: an empty or
/// separator-only text yields none.
pub fn tokenize(text: &str) -> (r: Vec<String>)
    ensures
        r.deep_view() == tokens_of(lower_of(text@)),
        text@.len() == 0 ==> r@.len() == 0,
        (forall|i: int| 0 <= i < text@.len() ==> !is_alnum_char(text@[i])) ==> r@.len() == 0,
{
    let lowered = lowercase(text);
    let s = lowered.as_str();
    let n = s.unicode_len();
    let mut r: Vec<String> = Vec::new();
    let mut i: usize = 0;
    proof {
        assert(s@.skip(0) =~= s@);
        assert(r.deep_view() + tokens_of(s@) =~= tokens_of(s@));
    }
    while i < n
        invariant
            i <= n == s@.len(),
            s@ == lower_of(text@),
            r.deep_view() + tokens_of(s@.skip(i as int)) == tokens_of(s@),
        decreases n - i,
    {
        let c = s.get_char(i);
        if !is_alnum(c) {
            proof {
                let t = s@.skip(i as int);
                assert(t.drop_first() =~= s@.skip(i + 1));
                assert(r.deep_view() + tokens_of(s@.skip(i + 1)) =~= r.deep_view() + tokens_of(
                    s@.skip(i as int),
                ));
            }
            i = i + 1;
        } else {
            let start = i;
            i = i + 1;
            while i < n && is_alnum(s.get_char(i))
                invariant
                    start < i <= n == s@.len(),
                    forall|k: int| start <= k < i ==> is_alnum_char(s@[k]),
                    i < n ==> is_alnum_char(s@[start as int]),
                decreases n - i,
            {
                i = i + 1;
            }
            let tok = s.substring_char(start, i).to_owned();
            proof {
                let t = s@.skip(start as int);
                assert(forall|k: int|
                    0 <= k < i - start ==> t[k] == s@[k + start] && is_alnum_char(#[trigger] t[k]));
                assert(i < n ==> t[i - start] == s@[i as int]);
                lemma_run_len_is(t, i - start);
                assert(t.take(i - start) =~= s@.subrange(start as int, i as int));
                assert(t.skip(i - start) =~= s@.skip(i as int));
                assert(tokens_of(t) == seq![s@.subrange(start as int, i as int)] + tokens_of(
                    s@.skip(i as int),
                ));
            }
            let ghost old_r = r.deep_view();
            r.push(tok);
            proof {
                assert(r.deep_view() =~= old_r + seq![s@.subrange(start as int, i as int)]);
                assert(r.deep_view() + tokens_of(s@.skip(i as int)) =~= old_r + tokens_of(
                    s@.skip(start as int),
                ));
            }
        }
    }
    proof {
        assert(s@.skip(n as int) =~= Seq::<char>::empty());
        assert(r.deep_view() =~= r.deep_view() + tokens_of(s@.skip(n as int)));
        if forall|i: int| 0 <= i < text@.len() ==> !is_alnum_char(text@[i]) {
            assert(forall|i: int| 0 <= i < s@.len() ==> !is_alnum_char(s@[i]));
            lemma_tokens_of_separators(s@);
        }
    }
    r
}

} // verus!
