//! Roman numerals.
//!
//! A `Roman` value is an ordered sequence of [`Numeral`] symbols. The value
//! of a sequence is computed right to left with the classical subtractive
//! convention: a symbol adds its weight when no symbol to its right is
//! heavier, and subtracts it otherwise. Any sequence of symbols is decodable,
//! not only canonical ones.

use vstd::prelude::*;

verus! {

/// An individual Roman numeral symbol, without a position.
#[derive(PartialEq, Eq, Structural, Debug, Copy, Clone)]
pub enum Numeral {
    /// The `I` numeral, representing 1.
    I,
    /// The `V` numeral, representing 5.
    V,
    /// The `X` numeral, representing 10.
    X,
    /// The `L` numeral, representing 50.
    L,
    /// The `C` numeral, representing 100.
    C,
    /// The `D` numeral, representing 500.
    D,
    /// The `M` numeral, representing 1000.
    M,
}

impl Numeral {
    /// The fixed weight of this symbol.
    pub open spec fn spec_value(self) -> int {
        match self {
            Numeral::I => 1,
            Numeral::V => 5,
            Numeral::X => 10,
            Numeral::L => 50,
            Numeral::C => 100,
            Numeral::D => 500,
            Numeral::M => 1000,
        }
    }

    /// The weight that this numeral is worth on its own; whether it counts
    /// positively or negatively depends on its position in a sequence.
    pub fn value(self) -> (r: i16)
        ensures
            r as int == self.spec_value(),
    {
        match self {
            Numeral::I => 1,
            Numeral::V => 5,
            Numeral::X => 10,
            Numeral::L => 50,
            Numeral::C => 100,
            Numeral::D => 500,
            Numeral::M => 1000,
        }
    }

    /// The uppercase ASCII character for this symbol.
    pub open spec fn spec_ascii_upper(self) -> char {
        match self {
            Numeral::I => 'I',
            Numeral::V => 'V',
            Numeral::X => 'X',
            Numeral::L => 'L',
            Numeral::C => 'C',
            Numeral::D => 'D',
            Numeral::M => 'M',
        }
    }

    /// The lowercase ASCII character for this symbol.
    pub open spec fn spec_ascii_lower(self) -> char {
        match self {
            Numeral::I => 'i',
            Numeral::V => 'v',
            Numeral::X => 'x',
            Numeral::L => 'l',
            Numeral::C => 'c',
            Numeral::D => 'd',
            Numeral::M => 'm',
        }
    }

    /// The uppercase ASCII character for this symbol.
    pub fn ascii_upper(self) -> (r: char)
        ensures
            r == self.spec_ascii_upper(),
    {
        match self {
            Numeral::I => 'I',
            Numeral::V => 'V',
            Numeral::X => 'X',
            Numeral::L => 'L',
            Numeral::C => 'C',
            Numeral::D => 'D',
            Numeral::M => 'M',
        }
    }

    /// The lowercase ASCII character for this symbol.
    pub fn ascii_lower(self) -> (r: char)
        ensures
            r == self.spec_ascii_lower(),
    {
        match self {
            Numeral::I => 'i',
            Numeral::V => 'v',
            Numeral::X => 'x',
            Numeral::L => 'l',
            Numeral::C => 'c',
            Numeral::D => 'd',
            Numeral::M => 'm',
        }
    }

    /// The uppercase ASCII character for this symbol, as a one-character
    /// string slice.
    fn ascii_upper_str(self) -> (r: &'static str)
        ensures
            r@ == seq![self.spec_ascii_upper()],
    {
        proof {
            reveal_strlit("I");
            reveal_strlit("V");
            reveal_strlit("X");
            reveal_strlit("L");
            reveal_strlit("C");
            reveal_strlit("D");
            reveal_strlit("M");
            assert("I"@ =~= seq!['I']);
            assert("V"@ =~= seq!['V']);
            assert("X"@ =~= seq!['X']);
            assert("L"@ =~= seq!['L']);
            assert("C"@ =~= seq!['C']);
            assert("D"@ =~= seq!['D']);
            assert("M"@ =~= seq!['M']);
        }
        match self {
            Numeral::I => "I",
            Numeral::V => "V",
            Numeral::X => "X",
            Numeral::L => "L",
            Numeral::C => "C",
            Numeral::D => "D",
            Numeral::M => "M",
        }
    }

    /// The lowercase ASCII character for this symbol, as a one-character
    /// string slice.
    fn ascii_lower_str(self) -> (r: &'static str)
        ensures
            r@ == seq![self.spec_ascii_lower()],
    {
        proof {
            reveal_strlit("i");
            reveal_strlit("v");
            reveal_strlit("x");
            reveal_strlit("l");
            reveal_strlit("c");
            reveal_strlit("d");
            reveal_strlit("m");
            assert("i"@ =~= seq!['i']);
            assert("v"@ =~= seq!['v']);
            assert("x"@ =~= seq!['x']);
            assert("l"@ =~= seq!['l']);
            assert("c"@ =~= seq!['c']);
            assert("d"@ =~= seq!['d']);
            assert("m"@ =~= seq!['m']);
        }
        match self {
            Numeral::I => "i",
            Numeral::V => "v",
            Numeral::X => "x",
            Numeral::L => "l",
            Numeral::C => "c",
            Numeral::D => "d",
            Numeral::M => "m",
        }
    }

    /// The numeral a character stands for, if any; uppercase and lowercase
    /// ASCII letters are both accepted.
    pub open spec fn spec_from_char(c: char) -> Option<Numeral> {
        if c == 'I' || c == 'i' {
            Some(Numeral::I)
        } else if c == 'V' || c == 'v' {
            Some(Numeral::V)
        } else if c == 'X' || c == 'x' {
            Some(Numeral::X)
        } else if c == 'L' || c == 'l' {
            Some(Numeral::L)
        } else if c == 'C' || c == 'c' {
            Some(Numeral::C)
        } else if c == 'D' || c == 'd' {
            Some(Numeral::D)
        } else if c == 'M' || c == 'm' {
            Some(Numeral::M)
        } else {
            None
        }
    }

    /// Turns an individual character into its numeral equivalent, if there is
    /// one, and returns `None` otherwise. Uppercase and lowercase ASCII
    /// characters are both accepted.
    pub fn from_char(input: char) -> (r: Option<Numeral>)
        ensures
            r == Numeral::spec_from_char(input),
    {
        match input {
            'I' | 'i' => Some(Numeral::I),
            'V' | 'v' => Some(Numeral::V),
            'X' | 'x' => Some(Numeral::X),
            'L' | 'l' => Some(Numeral::L),
            'C' | 'c' => Some(Numeral::C),
            'D' | 'd' => Some(Numeral::D),
            'M' | 'm' => Some(Numeral::M),
            _ => None,
        }
    }
}

/// The heaviest weight occurring in a sequence of numerals, or 0 when the
/// sequence is empty.
pub open spec fn max_weight(s: Seq<Numeral>) -> int
    decreases s.len(),
{
    if s.len() == 0 {
        0
    } else if s[0].spec_value() >= max_weight(s.skip(1)) {
        s[0].spec_value()
    } else {
        max_weight(s.skip(1))
    }
}

/// The subtractive value of a sequence of numerals: each symbol adds its
/// weight when it is at least as heavy as every symbol to its right, and
/// subtracts it otherwise. This is the value the right-to-left running-maximum
/// computation produces, on any sequence, canonical or not.
pub open spec fn seq_value(s: Seq<Numeral>) -> int
    decreases s.len(),
{
    if s.len() == 0 {
        0
    } else {
        let w = s[0].spec_value();
        let rest = s.skip(1);
        (if w >= max_weight(rest) {
            w
        } else {
            -w
        }) + seq_value(rest)
    }
}

/// Whether every suffix of `s` has a subtractive value inside the `i16`
/// range. The right-to-left computation of `seq_value` passes exactly through
/// the suffix values, so this says that the computation never overflows.
pub open spec fn fits_i16(s: Seq<Numeral>) -> bool {
    forall|j: int| 0 <= j <= s.len() ==> -32768 <= #[trigger] seq_value(s.skip(j)) <= 32767
}

/// Peeling one numeral off the front of a sequence: its contribution is
/// decided by the heaviest symbol behind it.
proof fn lemma_value_prepend(x: Numeral, t: Seq<Numeral>)
    ensures
        max_weight(seq![x] + t) == if x.spec_value() >= max_weight(t) {
            x.spec_value()
        } else {
            max_weight(t)
        },
        seq_value(seq![x] + t) == (if x.spec_value() >= max_weight(t) {
            x.spec_value()
        } else {
            -x.spec_value()
        }) + seq_value(t),
{
    let s = seq![x] + t;
    assert(s.skip(1) =~= t);
    assert(s[0] == x);
}

/// The uppercase rendering of a sequence of numerals, character by character.
pub open spec fn rendered_upper(s: Seq<Numeral>) -> Seq<char> {
    s.map_values(|n: Numeral| n.spec_ascii_upper())
}

/// The lowercase rendering of a sequence of numerals, character by character.
pub open spec fn rendered_lower(s: Seq<Numeral>) -> Seq<char> {
    s.map_values(|n: Numeral| n.spec_ascii_lower())
}

/// The canonical subtractive sequence for an integer: greedily take the
/// largest expressible step — a single symbol, or a subtractive pair such as
/// `CM` for 900 — and recur on the remainder. Zero and negative integers have
/// no symbols, so they map to the empty sequence.
pub open spec fn canonical(n: int) -> Seq<Numeral>
    decreases n,
{
    if n >= 1000 {
        seq![Numeral::M] + canonical(n - 1000)
    } else if n >= 900 {
        seq![Numeral::C, Numeral::M] + canonical(n - 900)
    } else if n >= 500 {
        seq![Numeral::D] + canonical(n - 500)
    } else if n >= 400 {
        seq![Numeral::C, Numeral::D] + canonical(n - 400)
    } else if n >= 100 {
        seq![Numeral::C] + canonical(n - 100)
    } else if n >= 90 {
        seq![Numeral::X, Numeral::C] + canonical(n - 90)
    } else if n >= 50 {
        seq![Numeral::L] + canonical(n - 50)
    } else if n >= 40 {
        seq![Numeral::X, Numeral::L] + canonical(n - 40)
    } else if n >= 10 {
        seq![Numeral::X] + canonical(n - 10)
    } else if n >= 9 {
        seq![Numeral::I, Numeral::X] + canonical(n - 9)
    } else if n >= 5 {
        seq![Numeral::V] + canonical(n - 5)
    } else if n >= 4 {
        seq![Numeral::I, Numeral::V] + canonical(n - 4)
    } else if n >= 1 {
        seq![Numeral::I] + canonical(n - 1)
    } else {
        Seq::empty()
    }
}

/// The weight of the heaviest symbol the greedy algorithm uses for `n`: the
/// primary weight of the first step it takes.
spec fn greedy_top(n: int) -> int {
    if n >= 900 {
        1000
    } else if n >= 400 {
        500
    } else if n >= 90 {
        100
    } else if n >= 40 {
        50
    } else if n >= 9 {
        10
    } else if n >= 4 {
        5
    } else if n >= 1 {
        1
    } else {
        0
    }
}

/// A bound on the value of any suffix of `canonical(n)`. A suffix that starts
/// right after the secondary symbol of a subtractive pair is worth up to the
/// pair's primary weight more than the remainder it encodes, but such a
/// suffix is always worth less than 1100; every other suffix is worth at most
/// `n` itself.
spec fn suffix_cap(n: int) -> int {
    if n >= 1099 {
        n
    } else {
        1099
    }
}

/// Prepending a symbol at least as heavy as everything behind it: the symbol
/// adds its weight, becomes the heaviest, and leaves the old suffixes alone.
proof fn lemma_prepend_primary(s: Seq<Numeral>, p: Numeral, t: Seq<Numeral>, b: int)
    requires
        s == seq![p] + t,
        max_weight(t) <= p.spec_value(),
        forall|j: int| 0 <= j <= t.len() ==> 0 <= #[trigger] seq_value(t.skip(j)) <= b,
    ensures
        seq_value(s) == p.spec_value() + seq_value(t),
        max_weight(s) == p.spec_value(),
        forall|j: int| 1 <= j <= s.len() ==> 0 <= #[trigger] seq_value(s.skip(j)) <= b,
{
    lemma_value_prepend(p, t);
    assert forall|j: int| 1 <= j <= s.len() implies 0 <= #[trigger] seq_value(s.skip(j)) <= b by {
        assert(s.skip(j) =~= t.skip(j - 1));
    }
}

/// Prepending a subtractive pair: the lighter secondary symbol subtracts its
/// weight, the primary adds its own, and the suffix that starts at the
/// primary is worth the primary's weight more than the tail.
proof fn lemma_prepend_pair(s: Seq<Numeral>, s2: Numeral, p: Numeral, t: Seq<Numeral>, b: int)
    requires
        s == seq![s2, p] + t,
        s2.spec_value() < p.spec_value(),
        max_weight(t) <= p.spec_value(),
        forall|j: int| 0 <= j <= t.len() ==> 0 <= #[trigger] seq_value(t.skip(j)) <= b,
    ensures
        seq_value(s) == p.spec_value() - s2.spec_value() + seq_value(t),
        max_weight(s) == p.spec_value(),
        seq_value(s.skip(1)) == p.spec_value() + seq_value(t),
        forall|j: int| 2 <= j <= s.len() ==> 0 <= #[trigger] seq_value(s.skip(j)) <= b,
{
    lemma_prepend_primary(seq![p] + t, p, t, b);
    assert(s =~= seq![s2] + (seq![p] + t));
    lemma_value_prepend(s2, seq![p] + t);
    assert(s.skip(1) =~= seq![p] + t);
    assert forall|j: int| 2 <= j <= s.len() implies 0 <= #[trigger] seq_value(s.skip(j)) <= b by {
        assert(s.skip(j) =~= t.skip(j - 2));
    }
}

/// The canonical sequence of `n` decodes back to `n`; its heaviest symbol is
/// the first one the greedy algorithm emits; and every suffix of it decodes
/// to a value between 0 and `suffix_cap(n)`.
proof fn lemma_canonical_value(n: int)
    requires
        0 <= n,
    ensures
        seq_value(canonical(n)) == n,
        max_weight(canonical(n)) <= greedy_top(n),
        forall|j: int|
            0 <= j <= canonical(n).len() ==> 0 <= #[trigger] seq_value(canonical(n).skip(j))
                <= suffix_cap(n),
    decreases n,
{
    if n == 0 {
        assert(canonical(0).skip(0) =~= canonical(0));
    } else if n >= 1000 {
        lemma_canonical_value(n - 1000);
        lemma_prepend_primary(canonical(n), Numeral::M, canonical(n - 1000), suffix_cap(n - 1000));
        assert(canonical(n).skip(0) =~= canonical(n));
    } else if n >= 900 {
        lemma_canonical_value(n - 900);
        lemma_prepend_pair(canonical(n), Numeral::C, Numeral::M, canonical(n - 900), suffix_cap(n - 900));
        assert(canonical(n).skip(0) =~= canonical(n));
    } else if n >= 500 {
        lemma_canonical_value(n - 500);
        lemma_prepend_primary(canonical(n), Numeral::D, canonical(n - 500), suffix_cap(n - 500));
        assert(canonical(n).skip(0) =~= canonical(n));
    } else if n >= 400 {
        lemma_canonical_value(n - 400);
        lemma_prepend_pair(canonical(n), Numeral::C, Numeral::D, canonical(n - 400), suffix_cap(n - 400));
        assert(canonical(n).skip(0) =~= canonical(n));
    } else if n >= 100 {
        lemma_canonical_value(n - 100);
        lemma_prepend_primary(canonical(n), Numeral::C, canonical(n - 100), suffix_cap(n - 100));
        assert(canonical(n).skip(0) =~= canonical(n));
    } else if n >= 90 {
        lemma_canonical_value(n - 90);
        lemma_prepend_pair(canonical(n), Numeral::X, Numeral::C, canonical(n - 90), suffix_cap(n - 90));
        assert(canonical(n).skip(0) =~= canonical(n));
    } else if n >= 50 {
        lemma_canonical_value(n - 50);
        lemma_prepend_primary(canonical(n), Numeral::L, canonical(n - 50), suffix_cap(n - 50));
        assert(canonical(n).skip(0) =~= canonical(n));
    } else if n >= 40 {
        lemma_canonical_value(n - 40);
        lemma_prepend_pair(canonical(n), Numeral::X, Numeral::L, canonical(n - 40), suffix_cap(n - 40));
        assert(canonical(n).skip(0) =~= canonical(n));
    } else if n >= 10 {
        lemma_canonical_value(n - 10);
        lemma_prepend_primary(canonical(n), Numeral::X, canonical(n - 10), suffix_cap(n - 10));
        assert(canonical(n).skip(0) =~= canonical(n));
    } else if n >= 9 {
        lemma_canonical_value(n - 9);
        lemma_prepend_pair(canonical(n), Numeral::I, Numeral::X, canonical(n - 9), suffix_cap(n - 9));
        assert(canonical(n).skip(0) =~= canonical(n));
    } else if n >= 5 {
        lemma_canonical_value(n - 5);
        lemma_prepend_primary(canonical(n), Numeral::V, canonical(n - 5), suffix_cap(n - 5));
        assert(canonical(n).skip(0) =~= canonical(n));
    } else if n >= 4 {
        lemma_canonical_value(n - 4);
        lemma_prepend_pair(canonical(n), Numeral::I, Numeral::V, canonical(n - 4), suffix_cap(n - 4));
        assert(canonical(n).skip(0) =~= canonical(n));
    } else {
        lemma_canonical_value(n - 1);
        lemma_prepend_primary(canonical(n), Numeral::I, canonical(n - 1), suffix_cap(n - 1));
        assert(canonical(n).skip(0) =~= canonical(n));
    }
}

/// Round trip: for every integer the encoder accepts, the canonical sequence
/// decodes back to that integer, and the decoding computation never leaves
/// the `i16` range, so both [`Roman::value`] and [`Roman::value_checked`]
/// recover the integer from [`Roman::encode`]'s output.
pub proof fn lemma_round_trip(n: int)
    requires
        1 <= n <= 32767,
    ensures
        seq_value(canonical(n)) == n,
        fits_i16(canonical(n)),
{
    lemma_canonical_value(n);
}

/// The states in which the greedy encoder may work on a `(secondary,
/// primary)` pair: the pairs come in descending order, so by the time a pair
/// is reached, the remainder is below the previous pair's subtractive step.
spec fn pair_step_ok(secondary: Numeral, primary: Numeral, rem: int) -> bool {
    ||| (secondary == Numeral::C && primary == Numeral::M)
    ||| (secondary == Numeral::C && primary == Numeral::D && rem < 900)
    ||| (secondary == Numeral::X && primary == Numeral::C && rem < 400)
    ||| (secondary == Numeral::X && primary == Numeral::L && rem < 90)
    ||| (secondary == Numeral::I && primary == Numeral::X && rem < 40)
    ||| (secondary == Numeral::I && primary == Numeral::V && rem < 9)
}

/// One step of the greedy encoder: append `primary` while the remainder
/// covers it, then append the subtractive pair once if the remainder covers
/// the difference. Appending symbols and shrinking the remainder in lockstep
/// keeps `out + canonical(rem)` unchanged.
fn apply_pair(out: &mut Vec<Numeral>, rem: &mut i16, secondary: Numeral, primary: Numeral)
    requires
        0 <= *old(rem),
        pair_step_ok(secondary, primary, *old(rem) as int),
    ensures
        0 <= *final(rem),
        (*final(rem) as int) < primary.spec_value() - secondary.spec_value(),
        final(out)@ + canonical(*final(rem) as int) == old(out)@ + canonical(*old(rem) as int),
{
    let pw = primary.value();
    let sw = secondary.value();
    while *rem >= pw
        invariant
            0 <= *rem <= *old(rem),
            pw as int == primary.spec_value(),
            pair_step_ok(secondary, primary, *old(rem) as int),
            out@ + canonical(*rem as int) == old(out)@ + canonical(*old(rem) as int),
        decreases *rem,
    {
        proof {
            assert(canonical(*rem as int) =~= seq![primary] + canonical(*rem as int
                - primary.spec_value()));
            assert(out@.push(primary) + canonical(*rem as int - primary.spec_value()) =~= out@
                + canonical(*rem as int));
        }
        out.push(primary);
        *rem = *rem - pw;
    }
    let difference = pw - sw;
    if *rem >= difference {
        proof {
            assert(canonical(*rem as int) =~= seq![secondary, primary] + canonical(*rem as int
                - (primary.spec_value() - secondary.spec_value())));
            assert(out@.push(secondary).push(primary) + canonical(*rem as int
                - (primary.spec_value() - secondary.spec_value())) =~= out@ + canonical(
                *rem as int,
            ));
        }
        out.push(secondary);
        out.push(primary);
        *rem = *rem - difference;
    }
}

/// An error from building a sequence of Roman numerals.
#[derive(PartialEq, Eq, Structural, Debug, Copy, Clone)]
pub enum RomanError {
    /// A character of the input maps to no numeral; carries the position of
    /// the first such character.
    InvalidNumeralText(usize),
    /// The integer handed to [`Roman::encode`] was zero or negative, which
    /// the notation cannot represent.
    NonPositiveInput,
}

/// A sequence of Roman numerals.
#[derive(Debug)]
pub struct Roman {
    numerals: Vec<Numeral>,
}

impl View for Roman {
    type V = Seq<Numeral>;

    closed spec fn view(&self) -> Seq<Numeral> {
        self.numerals@
    }
}

impl Roman {
    /// Wraps an explicit list of numerals, in the given order.
    pub fn from_numerals(numerals: Vec<Numeral>) -> (r: Self)
        ensures
            r@ == numerals@,
    {
        Self { numerals }
    }

    /// Parses a string of characters into a sequence of numerals, in input
    /// order. Fails at the first character that maps to no numeral and
    /// reports its position; no partial sequence is returned. The empty
    /// string parses to the empty sequence. Uppercase and lowercase ASCII
    /// characters are both accepted.
    pub fn parse(input: &str) -> (r: Result<Self, RomanError>)
        ensures
            match r {
                Ok(rom) => {
                    &&& rom@.len() == input@.len()
                    &&& forall|k: int|
                        0 <= k < input@.len() ==> #[trigger] Numeral::spec_from_char(input@[k])
                            == Some(rom@[k])
                },
                Err(e) => match e {
                    RomanError::InvalidNumeralText(p) => {
                        &&& p < input@.len()
                        &&& Numeral::spec_from_char(input@[p as int]) is None
                        &&& forall|k: int|
                            0 <= k < p ==> #[trigger] Numeral::spec_from_char(input@[k]) is Some
                    },
                    RomanError::NonPositiveInput => false,
                },
            },
    {
        let mut numerals: Vec<Numeral> = Vec::new();
        let len = input.unicode_len();
        for i in 0..len
            invariant
                len == input@.len(),
                numerals@.len() == i,
                forall|k: int|
                    0 <= k < i ==> #[trigger] Numeral::spec_from_char(input@[k]) == Some(
                        numerals@[k],
                    ),
        {
            let c = input.get_char(i);
            match Numeral::from_char(c) {
                Some(n) => numerals.push(n),
                None => {
                    return Err(RomanError::InvalidNumeralText(i));
                },
            }
        }
        Ok(Self { numerals })
    }

    /// Converts this sequence of numerals into its integer value. The caller
    /// must know that the computation stays inside the `i16` range; for
    /// arbitrary input use [`Roman::value_checked`], which reports overflow
    /// instead of requiring its absence.
    pub fn value(&self) -> (r: i16)
        requires
            fits_i16(self@),
        ensures
            r as int == seq_value(self@),
    {
        let s = Ghost(self@);
        let mut total: i16 = 0;
        let mut max: i16 = 0;
        let mut i: usize = self.numerals.len();
        proof {
            assert(s@.skip(i as int) =~= Seq::<Numeral>::empty());
        }
        while i > 0
            invariant
                fits_i16(s@),
                s@ == self@,
                i <= s@.len() == self.numerals.len(),
                total as int == seq_value(s@.skip(i as int)),
                max as int == max_weight(s@.skip(i as int)),
            decreases i,
        {
            i = i - 1;
            let n = self.numerals[i].value();
            proof {
                assert(s@.skip(i as int) =~= seq![s@[i as int]] + s@.skip(i as int + 1));
                lemma_value_prepend(s@[i as int], s@.skip(i as int + 1));
                assert(seq_value(s@.skip(i as int)) <= 32767);
                assert(seq_value(s@.skip(i as int)) >= -32768);
            }
            total = total + if n >= max {
                n
            } else {
                -n
            };
            if max < n {
                max = n;
            }
        }
        proof {
            assert(s@.skip(0) =~= s@);
        }
        total
    }

    /// Converts this sequence of numerals into its integer value, checking
    /// every step of the computation against the `i16` range. Returns `None`
    /// exactly when the computation would overflow, and the value otherwise.
    pub fn value_checked(&self) -> (r: Option<i16>)
        ensures
            match r {
                Some(v) => fits_i16(self@) && v as int == seq_value(self@),
                None => !fits_i16(self@),
            },
    {
        let s = Ghost(self@);
        let mut total: i16 = 0;
        let mut max: i16 = 0;
        let mut i: usize = self.numerals.len();
        proof {
            assert(s@.skip(i as int) =~= Seq::<Numeral>::empty());
        }
        while i > 0
            invariant
                s@ == self@,
                i <= s@.len() == self.numerals.len(),
                total as int == seq_value(s@.skip(i as int)),
                max as int == max_weight(s@.skip(i as int)),
                forall|j: int|
                    i <= j <= s@.len() ==> -32768 <= #[trigger] seq_value(s@.skip(j)) <= 32767,
            decreases i,
        {
            i = i - 1;
            let n = self.numerals[i].value();
            proof {
                assert(s@.skip(i as int) =~= seq![s@[i as int]] + s@.skip(i as int + 1));
                lemma_value_prepend(s@[i as int], s@.skip(i as int + 1));
            }
            let amount_to_add = if n >= max {
                n
            } else {
                -n
            };
            match total.checked_add(amount_to_add) {
                Some(t) => {
                    total = t;
                },
                None => {
                    proof {
                        assert(seq_value(s@.skip(i as int)) == total as int + amount_to_add as int);
                        assert(!fits_i16(s@));
                    }
                    return None;
                },
            }
            if max < n {
                max = n;
            }
        }
        proof {
            assert(s@.skip(0) =~= s@);
        }
        Some(total)
    }

    /// Builds the canonical sequence for a strictly positive integer, by the
    /// greedy subtractive algorithm: for each weight pair from `(C, M)` down
    /// to `(I, V)`, emit the primary symbol while the remainder covers it,
    /// then the subtractive pair once if the remainder covers the difference;
    /// what is left after the last pair is below 4 and becomes that many `I`.
    /// Zero and negative integers cannot be represented and are rejected with
    /// [`RomanError::NonPositiveInput`].
    pub fn encode(n: i16) -> (r: Result<Self, RomanError>)
        ensures
            match r {
                Ok(rom) => {
                    &&& n > 0
                    &&& rom@ == canonical(n as int)
                    &&& seq_value(rom@) == n
                    &&& fits_i16(rom@)
                },
                Err(e) => n <= 0 && e == RomanError::NonPositiveInput,
            },
    {
        if n <= 0 {
            return Err(RomanError::NonPositiveInput);
        }
        proof {
            lemma_round_trip(n as int);
        }
        let mut numerals: Vec<Numeral> = Vec::new();
        let mut rem: i16 = n;
        apply_pair(&mut numerals, &mut rem, Numeral::C, Numeral::M);
        apply_pair(&mut numerals, &mut rem, Numeral::C, Numeral::D);
        apply_pair(&mut numerals, &mut rem, Numeral::X, Numeral::C);
        apply_pair(&mut numerals, &mut rem, Numeral::X, Numeral::L);
        apply_pair(&mut numerals, &mut rem, Numeral::I, Numeral::X);
        apply_pair(&mut numerals, &mut rem, Numeral::I, Numeral::V);
        while rem > 0
            invariant
                0 <= rem < 4,
                numerals@ + canonical(rem as int) == canonical(n as int),
            decreases rem,
        {
            proof {
                assert(canonical(rem as int) =~= seq![Numeral::I] + canonical(rem as int - 1));
                assert(numerals@.push(Numeral::I) + canonical(rem as int - 1) =~= numerals@
                    + canonical(rem as int));
            }
            numerals.push(Numeral::I);
            rem = rem - 1;
        }
        proof {
            assert(numerals@ + canonical(0) =~= numerals@);
        }
        Ok(Self { numerals })
    }

    /// Renders this sequence as uppercase text, one character per numeral, in
    /// sequence order. The result is a pure function of the sequence, so
    /// rendering twice yields the same text.
    pub fn render_upper(&self) -> (r: String)
        ensures
            r@ == rendered_upper(self@),
    {
        let mut out = String::new();
        let n = self.numerals.len();
        for i in 0..n
            invariant
                n == self@.len(),
                out@ == rendered_upper(self@.take(i as int)),
        {
            out.append(self.numerals[i].ascii_upper_str());
            proof {
                assert(rendered_upper(self@.take(i + 1)) =~= rendered_upper(self@.take(i as int))
                    + seq![self@[i as int].spec_ascii_upper()]);
            }
        }
        proof {
            assert(self@.take(n as int) =~= self@);
        }
        out
    }

    /// Renders this sequence as lowercase text, one character per numeral, in
    /// sequence order. The result is a pure function of the sequence, so
    /// rendering twice yields the same text.
    pub fn render_lower(&self) -> (r: String)
        ensures
            r@ == rendered_lower(self@),
    {
        let mut out = String::new();
        let n = self.numerals.len();
        for i in 0..n
            invariant
                n == self@.len(),
                out@ == rendered_lower(self@.take(i as int)),
        {
            out.append(self.numerals[i].ascii_lower_str());
            proof {
                assert(rendered_lower(self@.take(i + 1)) =~= rendered_lower(self@.take(i as int))
                    + seq![self@[i as int].spec_ascii_lower()]);
            }
        }
        proof {
            assert(self@.take(n as int) =~= self@);
        }
        out
    }
}

impl PartialEq for Roman {
    /// Two sequences are equal when they hold the same numerals in the same
    /// order.
    fn eq(&self, other: &Roman) -> (r: bool) {
        if self.numerals.len() != other.numerals.len() {
            return false;
        }
        let n = self.numerals.len();
        for i in 0..n
            invariant
                n == self@.len() == other@.len(),
                forall|k: int| 0 <= k < i ==> self@[k] == other@[k],
        {
            if self.numerals[i] != other.numerals[i] {
                return false;
            }
        }
        proof {
            assert(self@ =~= other@);
        }
        true
    }
}

impl vstd::std_specs::cmp::PartialEqSpecImpl for Roman {
    open spec fn obeys_eq_spec() -> bool {
        true
    }

    open spec fn eq_spec(&self, other: &Roman) -> bool {
        self@ == other@
    }
}

} // verus!
