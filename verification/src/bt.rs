//! Balanced ternary.
//!
//! A `BalancedTernary` value is an ordered sequence of [`Trit`] digits, most
//! significant first. The value of a sequence is the usual positional base-3
//! sum, with digit weights -1, 0 and +1.

use vstd::prelude::*;

verus! {

/// A single balanced-ternary digit.
#[derive(PartialEq, Eq, Structural, Debug, Copy, Clone)]
pub enum Trit {
    /// The `-` digit, weighing -1.
    Minus,
    /// The `0` digit, weighing 0.
    Zero,
    /// The `+` digit, weighing +1.
    Plus,
}

impl Trit {
    /// The fixed weight of this digit.
    pub open spec fn spec_value(self) -> int {
        match self {
            Trit::Minus => -1,
            Trit::Zero => 0,
            Trit::Plus => 1,
        }
    }

    /// The weight of this digit.
    pub fn value(self) -> (r: i64)
        ensures
            r as int == self.spec_value(),
    {
        match self {
            Trit::Minus => -1,
            Trit::Zero => 0,
            Trit::Plus => 1,
        }
    }

    /// The digit a character stands for, if any: `-`, `0` or `+`.
    pub open spec fn spec_from_char(c: char) -> Option<Trit> {
        if c == '-' {
            Some(Trit::Minus)
        } else if c == '0' {
            Some(Trit::Zero)
        } else if c == '+' {
            Some(Trit::Plus)
        } else {
            None
        }
    }

    /// Turns an individual character into its digit equivalent, if there is
    /// one, and returns `None` otherwise.
    pub fn from_char(input: char) -> (r: Option<Trit>)
        ensures
            r == Trit::spec_from_char(input),
    {
        match input {
            '-' => Some(Trit::Minus),
            '0' => Some(Trit::Zero),
            '+' => Some(Trit::Plus),
            _ => None,
        }
    }

    /// The character for this digit.
    pub open spec fn spec_ascii(self) -> char {
        match self {
            Trit::Minus => '-',
            Trit::Zero => '0',
            Trit::Plus => '+',
        }
    }

    /// The character for this digit.
    pub fn ascii(self) -> (r: char)
        ensures
            r == self.spec_ascii(),
    {
        match self {
            Trit::Minus => '-',
            Trit::Zero => '0',
            Trit::Plus => '+',
        }
    }

    /// The character for this digit, as a one-character string slice.
    fn ascii_str(self) -> (r: &'static str)
        ensures
            r@ == seq![self.spec_ascii()],
    {
        proof {
            reveal_strlit("-");
            reveal_strlit("0");
            reveal_strlit("+");
            assert("-"@ =~= seq!['-']);
            assert("0"@ =~= seq!['0']);
            assert("+"@ =~= seq!['+']);
        }
        match self {
            Trit::Minus => "-",
            Trit::Zero => "0",
            Trit::Plus => "+",
        }
    }
}

/// The positional value of a digit sequence, most significant digit first:
/// each digit multiplies the total so far by three and adds its own weight.
pub open spec fn seq_value(s: Seq<Trit>) -> int
    decreases s.len(),
{
    if s.len() == 0 {
        0
    } else {
        3 * seq_value(s.drop_last()) + s.last().spec_value()
    }
}

/// Whether the left-to-right computation of `seq_value` stays inside the
/// `i64` range at every step: for each digit, tripling the value of the
/// prefix before it, and then adding the digit's weight, both stay
/// representable.
pub open spec fn fits_i64(s: Seq<Trit>) -> bool {
    forall|k: int|
        0 <= k < s.len() ==> {
            let p = #[trigger] seq_value(s.take(k));
            &&& -0x8000000000000000 <= 3 * p <= 0x7fffffffffffffff
            &&& -0x8000000000000000 <= 3 * p + s[k].spec_value() <= 0x7fffffffffffffff
        }
}

/// The canonical digit sequence of a nonnegative integer, most significant
/// digit first: the last digit is chosen so that what remains is divisible by
/// three — a remainder of two becomes the digit -1 with a carry — and the
/// quotient is encoded in front of it. Zero has no digits.
pub open spec fn canonical(n: int) -> Seq<Trit>
    decreases n,
{
    if n <= 0 {
        Seq::empty()
    } else if n % 3 == 0 {
        canonical(n / 3) + seq![Trit::Zero]
    } else if n % 3 == 1 {
        canonical(n / 3) + seq![Trit::Plus]
    } else {
        canonical((n + 1) / 3) + seq![Trit::Minus]
    }
}

/// A sequence of balanced-ternary digits, most significant first.
#[derive(Debug)]
pub struct BalancedTernary {
    trits: Vec<Trit>,
}

impl View for BalancedTernary {
    type V = Seq<Trit>;

    closed spec fn view(&self) -> Seq<Trit> {
        self.trits@
    }
}

impl BalancedTernary {
    /// Parses a string of `-`, `0` and `+` characters into a digit sequence,
    /// in input order; returns `None` if any character is none of the three.
    /// The empty string parses to the empty sequence.
    pub fn parse(input: &str) -> (r: Option<Self>)
        ensures
            match r {
                Some(b) => {
                    &&& b@.len() == input@.len()
                    &&& forall|k: int|
                        0 <= k < input@.len() ==> #[trigger] Trit::spec_from_char(input@[k])
                            == Some(b@[k])
                },
                None => exists|k: int|
                    0 <= k < input@.len() && #[trigger] Trit::spec_from_char(input@[k]) is None,
            },
    {
        let mut trits: Vec<Trit> = Vec::new();
        let len = input.unicode_len();
        for i in 0..len
            invariant
                len == input@.len(),
                trits@.len() == i,
                forall|k: int|
                    0 <= k < i ==> #[trigger] Trit::spec_from_char(input@[k]) == Some(trits@[k]),
        {
            let c = input.get_char(i);
            match Trit::from_char(c) {
                Some(trit) => trits.push(trit),
                None => {
                    return None;
                },
            }
        }
        Some(Self { trits })
    }

    /// Computes the positional value of this digit sequence. The caller must
    /// know that the computation stays inside the `i64` range; sequences
    /// built by [`BalancedTernary::encode`] always do.
    pub fn value(&self) -> (r: i64)
        requires
            fits_i64(self@),
        ensures
            r as int == seq_value(self@),
    {
        let s = Ghost(self@);
        let mut sum: i64 = 0;
        let n = self.trits.len();
        proof {
            assert(s@.take(0) =~= Seq::<Trit>::empty());
        }
        for i in 0..n
            invariant
                fits_i64(s@),
                s@ == self@,
                n == s@.len() == self.trits.len(),
                sum as int == seq_value(s@.take(i as int)),
        {
            proof {
                assert(s@.take(i + 1).drop_last() =~= s@.take(i as int));
                assert(s@.take(i + 1).last() == s@[i as int]);
            }
            sum = 3 * sum + self.trits[i].value();
        }
        proof {
            assert(s@.take(n as int) =~= s@);
        }
        sum
    }

    /// Builds the canonical digit sequence for a nonnegative integer:
    /// repeatedly pick the digit that makes the remainder divisible by three,
    /// then divide; the digits come out least significant first and are
    /// reversed at the end. Zero encodes to the empty sequence.
    pub fn encode(n: i64) -> (r: Self)
        requires
            0 <= n,
        ensures
            r@ == canonical(n as int),
            seq_value(r@) == n,
            fits_i64(r@),
    {
        proof {
            lemma_round_trip(n as int);
        }
        let mut digits: Vec<Trit> = Vec::new();
        let mut m: i64 = n;
        proof {
            assert(canonical(m as int) + digits@.reverse() =~= canonical(n as int));
        }
        while m != 0
            invariant
                0 <= m <= n,
                canonical(m as int) + digits@.reverse() == canonical(n as int),
            decreases m,
        {
            let ghost m0 = m as int;
            let d: i64 = m % 3;
            if d == 0 {
                digits.push(Trit::Zero);
                m = m / 3;
            } else if d == 1 {
                digits.push(Trit::Plus);
                m = m / 3;
            } else {
                proof {
                    assert(0x7fffffffffffffffi64 % 3 == 1);
                }
                digits.push(Trit::Minus);
                m = (m + 1) / 3;
            }
            proof {
                let t = digits@.last();
                assert(canonical(m0) =~= canonical(m as int) + seq![t]);
                assert(digits@.reverse() =~= seq![t] + digits@.drop_last().reverse());
                assert(canonical(m as int) + digits@.reverse() =~= (canonical(m as int) + seq![t])
                    + digits@.drop_last().reverse());
            }
        }
        let mut trits: Vec<Trit> = Vec::new();
        let count = digits.len();
        let mut i: usize = count;
        while i > 0
            invariant
                i <= count == digits@.len(),
                trits@.len() == count - i,
                forall|k: int| 0 <= k < trits@.len() ==> trits@[k] == digits@[count - 1 - k],
            decreases i,
        {
            i = i - 1;
            trits.push(digits[i]);
        }
        proof {
            assert(trits@ =~= digits@.reverse());
            assert(canonical(0) + digits@.reverse() =~= digits@.reverse());
        }
        Self { trits }
    }

    /// Renders this digit sequence as text, one character per digit, in
    /// sequence order. The result is a pure function of the sequence, so
    /// rendering twice yields the same text.
    pub fn render(&self) -> (r: String)
        ensures
            r@ == rendered(self@),
    {
        let mut out = String::new();
        let n = self.trits.len();
        for i in 0..n
            invariant
                n == self@.len(),
                out@ == rendered(self@.take(i as int)),
        {
            out.append(self.trits[i].ascii_str());
            proof {
                assert(rendered(self@.take(i + 1)) =~= rendered(self@.take(i as int))
                    + seq![self@[i as int].spec_ascii()]);
            }
        }
        proof {
            assert(self@.take(n as int) =~= self@);
        }
        out
    }
}

/// The text rendering of a digit sequence, character by character.
pub open spec fn rendered(s: Seq<Trit>) -> Seq<char> {
    s.map_values(|t: Trit| t.spec_ascii())
}

/// Round trip: the canonical sequence of every nonnegative `i64` decodes
/// back to that integer, and the decoding computation stays inside the `i64`
/// range, so [`BalancedTernary::value`] recovers the integer from
/// [`BalancedTernary::encode`]'s output. Every prefix of the canonical
/// sequence decodes to one of the intermediate quotients, which all lie
/// between 0 and the integer itself.
pub proof fn lemma_round_trip(n: int)
    requires
        0 <= n <= 0x7fffffffffffffff,
    ensures
        seq_value(canonical(n)) == n,
        fits_i64(canonical(n)),
        forall|k: int|
            0 <= k <= canonical(n).len() ==> 0 <= #[trigger] seq_value(canonical(n).take(k)) <= n,
    decreases n,
{
    if n == 0 {
        assert forall|k: int| 0 <= k <= canonical(n).len() implies 0 <= #[trigger] seq_value(
            canonical(n).take(k),
        ) <= n by {
            assert(canonical(n).take(k) =~= canonical(n));
        }
    } else {
        let q = if n % 3 == 2 {
            (n + 1) / 3
        } else {
            n / 3
        };
        let t = canonical(n).last();
        lemma_round_trip(q);
        assert(canonical(n) =~= canonical(q) + seq![t]);
        assert(canonical(n).drop_last() =~= canonical(q));
        assert(seq_value(canonical(n)) == 3 * q + t.spec_value());
        assert(3 * q + t.spec_value() == n);
        assert forall|k: int| 0 <= k <= canonical(n).len() implies 0 <= #[trigger] seq_value(
            canonical(n).take(k),
        ) <= n by {
            if k < canonical(n).len() {
                assert(canonical(n).take(k) =~= canonical(q).take(k));
            } else {
                assert(canonical(n).take(k) =~= canonical(n));
            }
        }
        assert forall|k: int| 0 <= k < canonical(n).len() implies {
            let p = #[trigger] seq_value(canonical(n).take(k));
            &&& -0x8000000000000000 <= 3 * p <= 0x7fffffffffffffff
            &&& -0x8000000000000000 <= 3 * p + canonical(n)[k].spec_value() <= 0x7fffffffffffffff
        } by {
            if k < canonical(n).len() - 1 {
                assert(canonical(n).take(k) =~= canonical(q).take(k));
                assert(canonical(n)[k] == canonical(q)[k]);
            } else {
                assert(canonical(n).take(k) =~= canonical(q));
                assert(canonical(n)[k] == t);
                assert(3 * q == n - t.spec_value());
                if t == Trit::Minus {
                    assert(n % 3 == 2);
                    assert(0x7fffffffffffffffint % 3 == 1);
                    assert(n < 0x7fffffffffffffff);
                }
            }
        }
    }
}

} // verus!
