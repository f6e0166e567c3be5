//! Collision-free temporary file names: a process-local counter seeds
//! names of the shape `tmpNNNNNNNN.dat` (counter in hex, at least eight
//! digits), attempted in increasing order. The caller creates the file —
//! with create-new semantics — and moves to the next name if it already
//! exists, up to [`NAME_TRIES`] attempts.

use vstd::prelude::*;

verus! {

/// How many names the caller may try before giving up on a collision.
pub const NAME_TRIES: usize = 999;

/// Generates fresh file names inside one output directory.
pub struct TmpDir {
    dir: String,
    n: u64,
}

/// The hex digit character for a value below 16.
pub open spec fn hex_digit(d: int) -> char {
    if d == 0 {
        '0'
    } else if d == 1 {
        '1'
    } else if d == 2 {
        '2'
    } else if d == 3 {
        '3'
    } else if d == 4 {
        '4'
    } else if d == 5 {
        '5'
    } else if d == 6 {
        '6'
    } else if d == 7 {
        '7'
    } else if d == 8 {
        '8'
    } else if d == 9 {
        '9'
    } else if d == 10 {
        'a'
    } else if d == 11 {
        'b'
    } else if d == 12 {
        'c'
    } else if d == 13 {
        'd'
    } else if d == 14 {
        'e'
    } else {
        'f'
    }
}

/// The hex digits of `v`, most significant first, empty for zero.
pub open spec fn hex_seq(v: int) -> Seq<char>
    decreases v,
{
    if v <= 0 {
        Seq::empty()
    } else {
        hex_seq(v / 16) + seq![hex_digit(v % 16)]
    }
}

/// The hex digits of `v` padded with leading zeros to at least eight.
pub open spec fn hex8(v: int) -> Seq<char> {
    if hex_seq(v).len() >= 8 {
        hex_seq(v)
    } else {
        Seq::new((8 - hex_seq(v).len()) as nat, |i: int| '0') + hex_seq(v)
    }
}

/// The characters a digit stack spells, most significant (last pushed
/// among the padding, deepest among the value digits) first.
pub open spec fn digits_chars(ds: Seq<u8>) -> Seq<char> {
    Seq::new(ds.len(), |i: int| hex_digit(ds[ds.len() - 1 - i] as int))
}

/// The file name the counter value `v` produces.
pub open spec fn tmp_name(v: int) -> Seq<char> {
    "tmp"@ + hex8(v) + ".dat"@
}

/// Appends the single hex digit `d` to `out`.
fn push_hex_digit(out: String, d: u8) -> (r: String)
    requires
        d < 16,
    ensures
        r@ == out@ + seq![hex_digit(d as int)],
{
    proof {
        reveal_strlit("0");
        reveal_strlit("1");
        reveal_strlit("2");
        reveal_strlit("3");
        reveal_strlit("4");
        reveal_strlit("5");
        reveal_strlit("6");
        reveal_strlit("7");
        reveal_strlit("8");
        reveal_strlit("9");
        reveal_strlit("a");
        reveal_strlit("b");
        reveal_strlit("c");
        reveal_strlit("d");
        reveal_strlit("e");
        reveal_strlit("f");
    }
    if d == 0 {
        out.concat("0")
    } else if d == 1 {
        out.concat("1")
    } else if d == 2 {
        out.concat("2")
    } else if d == 3 {
        out.concat("3")
    } else if d == 4 {
        out.concat("4")
    } else if d == 5 {
        out.concat("5")
    } else if d == 6 {
        out.concat("6")
    } else if d == 7 {
        out.concat("7")
    } else if d == 8 {
        out.concat("8")
    } else if d == 9 {
        out.concat("9")
    } else if d == 10 {
        out.concat("a")
    } else if d == 11 {
        out.concat("b")
    } else if d == 12 {
        out.concat("c")
    } else if d == 13 {
        out.concat("d")
    } else if d == 14 {
        out.concat("e")
    } else {
        out.concat("f")
    }
}

impl TmpDir {
    /// The counter seeding the next name.
    pub closed spec fn counter(self) -> int {
        self.n as int
    }

    /// The directory the names live in.
    pub closed spec fn dir(self) -> Seq<char> {
        self.dir@
    }

    pub fn new(dir: &str) -> (r: TmpDir)
        ensures
            r.counter() == 1,
            r.dir() == dir@,
    {
        TmpDir { dir: dir.to_owned(), n: 1 }
    }

    /// The next candidate path, `dir/tmpNNNNNNNN.dat` with the counter in
    /// hex; each call advances the counter, so names come in increasing
    /// order and a collision is left behind by trying again.
    pub fn next_path(&mut self) -> (r: String)
        requires
            old(self).counter() < u64::MAX,
        ensures
            final(self).counter() == old(self).counter() + 1,
            final(self).dir() == old(self).dir(),
            r@ == old(self).dir() + "/"@ + tmp_name(old(self).counter()),
    {
        let v0 = self.n;
        self.n = self.n + 1;
        let mut digits: Vec<u8> = Vec::new();
        let mut v = v0;
        proof {
            reveal_strlit("/");
            reveal_strlit("tmp");
            reveal_strlit(".dat");
            assert(digits_chars(digits@) =~= Seq::<char>::empty());
        }
        #[verifier::loop_isolation(false)]
        while v > 0
            invariant
                forall|i: int| 0 <= i < digits@.len() ==> #[trigger] digits@[i] < 16,
                hex_seq(v0 as int) == hex_seq(v as int) + digits_chars(digits@),
            decreases v,
        {
            let d = (v % 16) as u8;
            let ghost pre = digits@;
            digits.push(d);
            v = v / 16;
            proof {
                assert(digits_chars(digits@) =~= seq![hex_digit(d as int)] + digits_chars(pre));
                assert(hex_seq(v0 as int) =~= hex_seq(v as int) + digits_chars(digits@));
            }
        }
        proof {
            assert(hex_seq(0) =~= Seq::<char>::empty());
            assert(digits_chars(digits@) =~= hex_seq(v0 as int));
        }
        let ghost hex_len = hex_seq(v0 as int).len();
        #[verifier::loop_isolation(false)]
        while digits.len() < 8
            invariant
                forall|i: int| 0 <= i < digits@.len() ==> #[trigger] digits@[i] < 16,
                digits@.len() >= hex_len,
                hex_len < 8 ==> digits@.len() <= 8,
                hex_len >= 8 ==> digits@.len() == hex_len,
                digits_chars(digits@) == Seq::new((digits@.len() - hex_len) as nat, |i: int| '0')
                    + hex_seq(v0 as int),
            decreases 8 - digits@.len(),
        {
            let ghost pre = digits@;
            digits.push(0);
            proof {
                assert(digits_chars(digits@) =~= seq!['0'] + digits_chars(pre));
                assert(digits_chars(digits@) =~= Seq::new(
                    (digits@.len() - hex_len) as nat,
                    |i: int| '0',
                ) + hex_seq(v0 as int));
            }
        }
        proof {
            assert(digits_chars(digits@) =~= hex8(v0 as int));
        }
        let mut out = self.dir.clone();
        out = out.concat("/");
        out = out.concat("tmp");
        let mut k: usize = digits.len();
        #[verifier::loop_isolation(false)]
        while k > 0
            invariant
                k <= digits@.len(),
                out@ == self.dir@ + "/"@ + "tmp"@ + digits_chars(digits@).take(
                    (digits@.len() - k) as int,
                ),
            decreases k,
        {
            let d = digits[k - 1];
            out = push_hex_digit(out, d);
            k = k - 1;
            proof {
                assert(digits_chars(digits@).take((digits@.len() - k) as int)
                    =~= digits_chars(digits@).take((digits@.len() - (k + 1)) as int) + seq![
                    hex_digit(d as int),
                ]);
                assert(out@ =~= self.dir@ + "/"@ + "tmp"@ + digits_chars(digits@).take(
                    (digits@.len() - k) as int,
                ));
            }
        }
        proof {
            assert(digits_chars(digits@).take(digits@.len() as int) =~= digits_chars(digits@));
        }
        let out = out.concat(".dat");
        proof {
            assert(out@ =~= self.dir@ + "/"@ + tmp_name(v0 as int));
        }
        out
    }
}

} // verus!
