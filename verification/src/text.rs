//! Parsing and formatting of the canonical decimal string form.
//!
//! The accepted grammar is an optional leading minus, one or more integer
//! digits, and optionally a dot followed by one or more fractional digits.
//! Parsing preserves the digits exactly as written — `007` stays three
//! digits — and formatting renders them back unchanged, so the two are
//! mutually inverse on every accepted string.

use vstd::prelude::*;

verus! {

use vstd::string::StrSliceExecFns;
use vstd::string::StringExecFns;
use crate::BigNumber;
use crate::MathErrors;
use crate::Sign;
use crate::digits::Digits;

/// `c` is one of the ten ASCII decimal digit characters.
pub open spec fn is_digit_char(c: char) -> bool {
    48 <= c as u32 <= 57
}

/// The digit a decimal digit character stands for.
pub open spec fn digit_of_char(c: char) -> Digits {
    if c == '0' {
        Digits::Zero
    } else if c == '1' {
        Digits::One
    } else if c == '2' {
        Digits::Two
    } else if c == '3' {
        Digits::Three
    } else if c == '4' {
        Digits::Four
    } else if c == '5' {
        Digits::Five
    } else if c == '6' {
        Digits::Six
    } else if c == '7' {
        Digits::Seven
    } else if c == '8' {
        Digits::Eight
    } else {
        Digits::Nine
    }
}

/// The character that renders a digit.
pub open spec fn char_of_digit(d: Digits) -> char {
    d.as_char()
}

/// The digit run a run of digit characters stands for.
pub open spec fn digits_of_chars(t: Seq<char>) -> Seq<Digits> {
    Seq::new(t.len(), |i: int| digit_of_char(t[i]))
}

/// The characters that render a digit run.
pub open spec fn chars_of_digits(s: Seq<Digits>) -> Seq<char> {
    Seq::new(s.len(), |i: int| char_of_digit(s[i]))
}

/// Every character of `t` is a decimal digit character.
pub open spec fn all_digit_chars(t: Seq<char>) -> bool {
    forall|i: int| 0 <= i < t.len() ==> is_digit_char(#[trigger] t[i])
}

/// The string opens with a minus sign.
pub open spec fn has_minus(s: Seq<char>) -> bool {
    s.len() > 0 && s[0] == '-'
}

/// The string with its optional leading minus removed.
pub open spec fn literal_body(s: Seq<char>) -> Seq<char> {
    if has_minus(s) {
        s.drop_first()
    } else {
        s
    }
}

/// The index of the first dot in `t`, or `t.len()` if there is none.
pub open spec fn dot_position(t: Seq<char>) -> int
    decreases t.len(),
{
    if t.len() == 0 {
        0
    } else if t[0] == '.' {
        0
    } else {
        1 + dot_position(t.drop_first())
    }
}

/// The accepted number grammar: an optional leading minus, one or more
/// integer digit characters, and optionally a dot followed by one or more
/// fractional digit characters.
pub open spec fn matches_number_grammar(s: Seq<char>) -> bool {
    let t = literal_body(s);
    let p = dot_position(t);
    &&& p >= 1
    &&& all_digit_chars(t.take(p))
    &&& (p == t.len() || (p + 2 <= t.len() && all_digit_chars(t.skip(p + 1))))
}

/// The sign an accepted string denotes.
pub open spec fn parsed_sign(s: Seq<char>) -> Sign {
    if has_minus(s) {
        Sign::Negative
    } else {
        Sign::Positive
    }
}

/// The integer digit run an accepted string denotes.
pub open spec fn parsed_integer_digits(s: Seq<char>) -> Seq<Digits> {
    let t = literal_body(s);
    digits_of_chars(t.take(dot_position(t)))
}

/// The fractional digit run an accepted string denotes.
pub open spec fn parsed_decimal_digits(s: Seq<char>) -> Seq<Digits> {
    let t = literal_body(s);
    let p = dot_position(t);
    if p < t.len() {
        digits_of_chars(t.skip(p + 1))
    } else {
        Seq::empty()
    }
}

/// The string that renders a number: the optional minus, the integer run
/// (a lone zero when that run is empty), and the fractional run behind a
/// dot when it is non-empty.
pub open spec fn formatted(x: BigNumber) -> Seq<char> {
    let sign_part: Seq<char> = if x.sign is Negative {
        seq!['-']
    } else {
        Seq::empty()
    };
    let integer_part: Seq<char> = if x.integer@.len() == 0 {
        seq!['0']
    } else {
        chars_of_digits(x.integer@)
    };
    let decimal_part: Seq<char> = if x.decimal@.len() > 0 {
        seq!['.'] + chars_of_digits(x.decimal@)
    } else {
        Seq::empty()
    };
    sign_part + integer_part + decimal_part
}

/// Where the first dot of `t` sits: before it no dot occurs, and at it —
/// if it is inside `t` — a dot stands.
pub proof fn lemma_dot_position(t: Seq<char>)
    ensures
        0 <= dot_position(t) <= t.len(),
        forall|j: int| 0 <= j < dot_position(t) ==> t[j] != '.',
        dot_position(t) < t.len() ==> t[dot_position(t)] == '.',
    decreases t.len(),
{
    if t.len() > 0 && t[0] != '.' {
        lemma_dot_position(t.drop_first());
        assert forall|j: int| 0 <= j < dot_position(t) implies t[j] != '.' by {
            if j > 0 {
                assert(t.drop_first()[j - 1] != '.');
            }
        }
    }
}

/// Any position that carries the first dot — or the length, when no dot
/// occurs — is the dot position.
pub proof fn lemma_dot_position_unique(t: Seq<char>, q: int)
    requires
        0 <= q <= t.len(),
        forall|j: int| 0 <= j < q ==> t[j] != '.',
        q < t.len() ==> t[q] == '.',
    ensures
        dot_position(t) == q,
{
    lemma_dot_position(t);
    let p = dot_position(t);
    if p < q {
        assert(t[p] == '.');
    }
    if q < p {
        assert(t[q] != '.');
    }
}

/// Two characters with the same scalar value are the same character.
proof fn lemma_char_value_injective(a: char, b: char)
    requires
        a as u32 == b as u32,
    ensures
        a == b,
{
    vstd::utf8::char_u32_cast(a, a as u32);
    vstd::utf8::char_u32_cast(b, b as u32);
}

/// Rendering the digit a digit character stands for gives that character
/// back.
pub proof fn lemma_char_digit_inverse(c: char)
    requires
        is_digit_char(c),
    ensures
        char_of_digit(digit_of_char(c)) == c,
{
    if c as u32 == 48 {
        lemma_char_value_injective(c, '0');
    } else if c as u32 == 49 {
        lemma_char_value_injective(c, '1');
    } else if c as u32 == 50 {
        lemma_char_value_injective(c, '2');
    } else if c as u32 == 51 {
        lemma_char_value_injective(c, '3');
    } else if c as u32 == 52 {
        lemma_char_value_injective(c, '4');
    } else if c as u32 == 53 {
        lemma_char_value_injective(c, '5');
    } else if c as u32 == 54 {
        lemma_char_value_injective(c, '6');
    } else if c as u32 == 55 {
        lemma_char_value_injective(c, '7');
    } else if c as u32 == 56 {
        lemma_char_value_injective(c, '8');
    } else {
        lemma_char_value_injective(c, '9');
    }
}

/// Rendering the digits a run of digit characters stands for gives that
/// run of characters back.
pub proof fn lemma_chars_digits_inverse(u: Seq<char>)
    requires
        all_digit_chars(u),
    ensures
        chars_of_digits(digits_of_chars(u)) == u,
{
    assert forall|i: int| 0 <= i < u.len() implies #[trigger] chars_of_digits(
        digits_of_chars(u),
    )[i] == u[i] by {
        lemma_char_digit_inverse(u[i]);
    }
    assert(chars_of_digits(digits_of_chars(u)) =~= u);
}

/// The digit characters of an accepted string render back to exactly that
/// string: parsing loses nothing and formatting invents nothing.
pub proof fn lemma_parse_format_round_trip(s: Seq<char>, b: BigNumber)
    requires
        matches_number_grammar(s),
        b.sign == parsed_sign(s),
        b.integer@ == parsed_integer_digits(s),
        b.decimal@ == parsed_decimal_digits(s),
    ensures
        formatted(b) == s,
{
    let t = literal_body(s);
    let p = dot_position(t);
    lemma_dot_position(t);
    lemma_chars_digits_inverse(t.take(p));
    assert(chars_of_digits(b.integer@) =~= t.take(p));
    if p < t.len() {
        lemma_chars_digits_inverse(t.skip(p + 1));
        assert(chars_of_digits(b.decimal@) =~= t.skip(p + 1));
        assert(b.decimal@.len() == t.len() - p - 1 >= 1);
        assert(formatted(b) =~= (if has_minus(s) {
            seq!['-']
        } else {
            Seq::<char>::empty()
        }) + t.take(p) + seq![t[p]] + t.skip(p + 1));
        assert(formatted(b) =~= s);
    } else {
        assert(t.take(p) =~= t);
        assert(formatted(b) =~= (if has_minus(s) {
            seq!['-']
        } else {
            Seq::<char>::empty()
        }) + t);
        assert(formatted(b) =~= s);
    }
}

/// The digit a decimal digit character stands for, or `None` for any
/// other character.
fn digit_value(c: char) -> (r: Option<Digits>)
    ensures
        r is Some <==> is_digit_char(c),
        r is Some ==> r->0 == digit_of_char(c),
{
    proof {
        if is_digit_char(c) {
            lemma_char_digit_inverse(c);
        }
    }
    if c == '0' {
        Some(Digits::Zero)
    } else if c == '1' {
        Some(Digits::One)
    } else if c == '2' {
        Some(Digits::Two)
    } else if c == '3' {
        Some(Digits::Three)
    } else if c == '4' {
        Some(Digits::Four)
    } else if c == '5' {
        Some(Digits::Five)
    } else if c == '6' {
        Some(Digits::Six)
    } else if c == '7' {
        Some(Digits::Seven)
    } else if c == '8' {
        Some(Digits::Eight)
    } else if c == '9' {
        Some(Digits::Nine)
    } else {
        None
    }
}

/// The character that renders a digit.
fn digit_literal(d: Digits) -> (r: &'static str)
    ensures
        r@ == seq![char_of_digit(d)],
{
    proof {
        reveal_strlit("0");
        reveal_strlit("1");
        reveal_strlit("2");
        reveal_strlit("3");
        reveal_strlit("4");
        reveal_strlit("5");
        reveal_strlit("6");
        reveal_strlit("7");
        reveal_strlit("8");
        reveal_strlit("9");
    }
    match d {
        Digits::Zero => "0",
        Digits::One => "1",
        Digits::Two => "2",
        Digits::Three => "3",
        Digits::Four => "4",
        Digits::Five => "5",
        Digits::Six => "6",
        Digits::Seven => "7",
        Digits::Eight => "8",
        Digits::Nine => "9",
    }
}

/// Whether `s` matches the accepted number grammar.
pub fn matches_grammar(s: &str) -> (r: bool)
    ensures
        r == matches_number_grammar(s@),
{
    match BigNumber::parse(s) {
        Ok(_) => true,
        Err(_) => false,
    }
}

impl BigNumber {
    /// Reads a number from its decimal string form.
    ///
    /// Succeeds exactly on strings matching the accepted grammar — an
    /// optional leading minus, one or more integer digits, optionally a
    /// dot and one or more fractional digits — and keeps every digit as
    /// written; any other string fails with [`MathErrors::ParseError`].
    #[verifier::rlimit(100)]
    #[verifier::loop_isolation(false)]
    pub fn parse(s: &str) -> (r: Result<BigNumber, MathErrors>)
        ensures
            r is Ok <==> matches_number_grammar(s@),
            r is Err ==> r->Err_0 == MathErrors::ParseError,
            r is Ok ==> {
                let b = r->Ok_0;
                &&& b.sign == parsed_sign(s@)
                &&& b.integer@ == parsed_integer_digits(s@)
                &&& b.decimal@ == parsed_decimal_digits(s@)
            },
    {
        let ghost sv = s@;
        let ghost t = literal_body(sv);
        proof {
            lemma_dot_position(t);
        }
        let len = s.unicode_len();
        let negative = len > 0 && s.get_char(0) == '-';
        let start: usize = if negative { 1 } else { 0 };
        proof {
            assert(t =~= sv.skip(start as int));
        }
        // Locate the first dot, if any.
        let mut dot: usize = len;
        let mut i: usize = start;
        while i < len
            invariant
                start <= i <= len,
                dot <= len,
                dot == len ==> forall|j: int| start <= j < i ==> sv[j] != '.',
                dot < len ==> start <= dot < i && sv[dot as int] == '.' && (forall|j: int|
                    start <= j < dot ==> sv[j] != '.'),
            decreases len - i,
        {
            if dot == len && s.get_char(i) == '.' {
                dot = i;
            }
            i += 1;
        }
        let ghost p = dot_position(t);
        proof {
            if dot == len {
                assert forall|j: int| 0 <= j < t.len() implies t[j] != '.' by {
                    assert(t[j] == sv[start + j]);
                }
                lemma_dot_position_unique(t, t.len() as int);
            } else {
                assert(t[dot - start] == sv[dot as int]);
                assert forall|j: int| 0 <= j < dot - start implies t[j] != '.' by {
                    assert(t[j] == sv[start + j]);
                }
                lemma_dot_position_unique(t, dot - start);
            }
        }
        // The integer digit run: everything between the sign and the dot.
        let int_end: usize = if dot < len { dot } else { len };
        if int_end == start {
            // No integer digit at all: the grammar demands at least one.
            return Err(MathErrors::ParseError);
        }
        let mut integer_digits: Vec<Digits> = Vec::new();
        let mut i: usize = start;
        while i < int_end
            invariant
                start <= i <= int_end,
                integer_digits@.len() == i - start,
                forall|j: int|
                    start <= j < i ==> is_digit_char(#[trigger] sv[j]) && integer_digits@[j
                        - start] == digit_of_char(sv[j]),
            decreases int_end - i,
        {
            let c = s.get_char(i);
            match digit_value(c) {
                Some(d) => {
                    integer_digits.push(d);
                },
                None => {
                    proof {
                        assert(t.take(p)[i - start] == sv[i as int]);
                        assert(!all_digit_chars(t.take(p)));
                    }
                    return Err(MathErrors::ParseError);
                },
            }
            i += 1;
        }
        // The fractional digit run: everything behind the dot.
        let mut decimal_digits: Vec<Digits> = Vec::new();
        if dot < len {
            if dot + 1 == len {
                // A bare trailing dot: the grammar demands a fractional
                // digit behind it.
                return Err(MathErrors::ParseError);
            }
            let mut i: usize = dot + 1;
            while i < len
                invariant
                    dot + 1 <= i <= len,
                    decimal_digits@.len() == i - dot - 1,
                    forall|j: int|
                        dot + 1 <= j < i ==> is_digit_char(#[trigger] sv[j]) && decimal_digits@[j
                            - dot - 1] == digit_of_char(sv[j]),
                decreases len - i,
            {
                let c = s.get_char(i);
                match digit_value(c) {
                    Some(d) => {
                        decimal_digits.push(d);
                    },
                    None => {
                        proof {
                            assert(t.skip(p + 1)[i - dot - 1] == sv[i as int]);
                            assert(!all_digit_chars(t.skip(p + 1)));
                        }
                        return Err(MathErrors::ParseError);
                    },
                }
                i += 1;
            }
        }
        let sign = if negative {
            Sign::Negative
        } else {
            Sign::Positive
        };
        proof {
            assert forall|i: int| 0 <= i < t.take(p).len() implies is_digit_char(
                #[trigger] t.take(p)[i],
            ) by {
                assert(t.take(p)[i] == sv[start + i]);
            }
            assert(integer_digits@ =~= parsed_integer_digits(sv));
            if dot < len {
                assert forall|i: int| 0 <= i < t.skip(p + 1).len() implies is_digit_char(
                    #[trigger] t.skip(p + 1)[i],
                ) by {
                    assert(t.skip(p + 1)[i] == sv[dot + 1 + i]);
                }
                assert(decimal_digits@ =~= parsed_decimal_digits(sv));
            } else {
                assert(decimal_digits@ =~= parsed_decimal_digits(sv));
            }
            assert(matches_number_grammar(sv));
        }
        Ok(BigNumber { integer: integer_digits, decimal: decimal_digits, sign })
    }

    /// Renders the number in its decimal string form: the optional minus,
    /// the integer digits (a single `0` when the integer run is empty),
    /// and — when fractional digits exist — a dot followed by them.
    #[verifier::loop_isolation(false)]
    pub fn format(&self) -> (r: String)
        ensures
            r@ == formatted(*self),
    {
        let ghost sign_part: Seq<char> = if self.sign is Negative {
            seq!['-']
        } else {
            Seq::empty()
        };
        let ghost integer_part: Seq<char> = if self.integer@.len() == 0 {
            seq!['0']
        } else {
            chars_of_digits(self.integer@)
        };
        let mut out = String::new();
        if self.is_negative() {
            out.append("-");
            proof {
                reveal_strlit("-");
            }
        }
        proof {
            assert(out@ =~= sign_part);
        }
        if self.integer.len() == 0 {
            out.append("0");
            proof {
                reveal_strlit("0");
                assert(out@ =~= sign_part + integer_part);
            }
        } else {
            let mut i: usize = 0;
            while i < self.integer.len()
                invariant
                    i <= self.integer@.len(),
                    out@ == sign_part + chars_of_digits(self.integer@.take(i as int)),
                decreases self.integer@.len() - i,
            {
                let d = self.integer[i];
                out.append(digit_literal(d));
                proof {
                    assert(out@ =~= sign_part + chars_of_digits(
                        self.integer@.take(i + 1 as int),
                    ));
                }
                i += 1;
            }
            proof {
                assert(self.integer@.take(self.integer@.len() as int) =~= self.integer@);
                assert(out@ =~= sign_part + integer_part);
            }
        }
        if self.decimal.len() > 0 {
            out.append(".");
            proof {
                reveal_strlit(".");
            }
            let ghost with_dot = sign_part + integer_part + seq!['.'];
            proof {
                assert(out@ =~= with_dot);
            }
            let mut i: usize = 0;
            while i < self.decimal.len()
                invariant
                    i <= self.decimal@.len(),
                    out@ == with_dot + chars_of_digits(self.decimal@.take(i as int)),
                decreases self.decimal@.len() - i,
            {
                let d = self.decimal[i];
                out.append(digit_literal(d));
                proof {
                    assert(out@ =~= with_dot + chars_of_digits(self.decimal@.take(i + 1 as int)));
                }
                i += 1;
            }
            proof {
                assert(self.decimal@.take(self.decimal@.len() as int) =~= self.decimal@);
                assert(out@ =~= formatted(*self));
            }
        } else {
            proof {
                assert(out@ =~= formatted(*self));
            }
        }
        out
    }
}

} // verus!
