//! Lexicographic ordering of terms by character value. Because UTF-8
//! preserves the order of the scalar values it encodes, this order agrees
//! with the byte-wise order of the terms' encodings, which is the order the
//! segment format prescribes.

use vstd::prelude::*;

verus! {

/// Strict lexicographic order on character sequences.
pub open spec fn term_lt(a: Seq<char>, b: Seq<char>) -> bool
    decreases a.len(),
{
    if b.len() == 0 {
        false
    } else if a.len() == 0 {
        true
    } else if a[0] == b[0] {
        term_lt(a.drop_first(), b.drop_first())
    } else {
        (a[0] as u32) < (b[0] as u32)
    }
}

/// `term_lt` never holds of a sequence and itself.
pub proof fn lemma_term_lt_irreflexive(a: Seq<char>)
    ensures
        !term_lt(a, a),
    decreases a.len(),
{
    if a.len() > 0 {
        lemma_term_lt_irreflexive(a.drop_first());
    }
}

/// Two sequences are equal or one is strictly below the other.
pub proof fn lemma_term_lt_connected(a: Seq<char>, b: Seq<char>)
    ensures
        term_lt(a, b) || term_lt(b, a) || a == b,
    decreases a.len(),
{
    if a.len() == 0 && b.len() == 0 {
        assert(a =~= b);
    } else if a.len() > 0 && b.len() > 0 && a[0] == b[0] {
        lemma_term_lt_connected(a.drop_first(), b.drop_first());
        if a.drop_first() == b.drop_first() {
            assert(a =~= seq![a[0]] + a.drop_first());
            assert(b =~= seq![b[0]] + b.drop_first());
        }
    } else if a.len() > 0 && b.len() > 0 {
        assert((a[0] as u32) != (b[0] as u32)) by {
            if (a[0] as u32) == (b[0] as u32) {
                vstd::utf8::char_u32_cast(a[0], a[0] as u32);
                vstd::utf8::char_u32_cast(b[0], b[0] as u32);
            }
        }
    }
}

/// `term_lt` is transitive.
pub proof fn lemma_term_lt_transitive(a: Seq<char>, b: Seq<char>, c: Seq<char>)
    requires
        term_lt(a, b),
        term_lt(b, c),
    ensures
        term_lt(a, c),
    decreases a.len(),
{
    if a.len() > 0 && b.len() > 0 && c.len() > 0 {
        if a[0] == b[0] && b[0] == c[0] {
            lemma_term_lt_transitive(a.drop_first(), b.drop_first(), c.drop_first());
        }
    }
}

/// Compares two terms in the order [`term_lt`]. Runs over the characters,
/// which gives the same verdict as comparing the UTF-8 encodings byte-wise.
pub fn term_less(a: &String, b: &String) -> (r: bool)
    ensures
        r == term_lt(a@, b@),
{
    let a_str = a.as_str();
    let b_str = b.as_str();
    let a_len = a_str.unicode_len();
    let b_len = b_str.unicode_len();
    let mut i: usize = 0;
    proof {
        assert(a@.skip(0) =~= a@);
        assert(b@.skip(0) =~= b@);
    }
    loop
        invariant
            i <= a_len == a_str@.len(),
            i <= b_len == b_str@.len(),
            a_str@ == a@,
            b_str@ == b@,
            term_lt(a@, b@) == term_lt(a@.skip(i as int), b@.skip(i as int)),
        ensures
            term_lt(a@, b@) == ({
                let ar = a@.skip(i as int);
                let br = b@.skip(i as int);
                if br.len() == 0 {
                    false
                } else if ar.len() == 0 {
                    true
                } else {
                    (ar[0] as u32) < (br[0] as u32)
                }
            }),
        decreases a_len - i,
    {
        if i == b_len {
            break ;
        }
        if i == a_len {
            break ;
        }
        let ca = a_str.get_char(i);
        let cb = b_str.get_char(i);
        proof {
            let ar = a@.skip(i as int);
            let br = b@.skip(i as int);
            assert(ar[0] == ca && br[0] == cb);
            assert(ar.drop_first() =~= a@.skip(i + 1));
            assert(br.drop_first() =~= b@.skip(i + 1));
        }
        if ca != cb {
            break ;
        }
        i = i + 1;
    }
    if i == b_len {
        false
    } else if i == a_len {
        true
    } else {
        let ca = a_str.get_char(i);
        let cb = b_str.get_char(i);
        proof {
            assert(a@.skip(i as int)[0] == ca);
            assert(b@.skip(i as int)[0] == cb);
        }
        (ca as u32) < (cb as u32)
    }
}

/// Whether two pieces of text are equal, character by character.
pub fn str_eq(a: &str, b: &str) -> (r: bool)
    ensures
        r == (a@ == b@),
{
    let a_len = a.unicode_len();
    let b_len = b.unicode_len();
    if a_len != b_len {
        return false;
    }
    let mut i: usize = 0;
    while i < a_len
        invariant
            i <= a_len == a@.len(),
            a@.len() == b@.len(),
            forall|k: int| 0 <= k < i ==> a@[k] == b@[k],
        decreases a_len - i,
    {
        if a.get_char(i) != b.get_char(i) {
            return false;
        }
        i = i + 1;
    }
    proof {
        assert(a@ =~= b@);
    }
    true
}

} // verus!
