//! The texts from which the palette builds its modules.

use vstd::prelude::*;
use vstd::string::*;
use vstd::arithmetic::power2::{lemma_pow2_pos, lemma_pow2_unfold, pow2, lemma2_to64};
use vstd::arithmetic::div_mod::lemma_div_denominator;
use crate::table::bit_of;
use crate::text::{decimal, decimal_string};
use crate::utils::{join_from, join_spec, texts};

verus! {

/// The kinds of module that the palette offers.
pub enum Modulator {
    /// A module written as assignments of expressions.
    Expressions,
    /// A decoder, written as inputs `x` outputs, such as `3x8`.
    Decoder,
    /// An encoder.
    Encoder,
    /// A seven-segment display.
    SevenSegment,
}

/// The names of the inputs of a decoder in order.
pub open spec fn input_names() -> Seq<char> {
    "abcdefghijklmnopqrstuvwxyz"@
}

/// The most inputs that a decoder can have.
pub const MAX_DECODER_INPUTS: i32 = 26;

/// Whether the character is one of the digits `0` to `9`.
pub open spec fn is_digit(c: char) -> bool {
    '0' <= c <= '9'
}

/// The number that a row of digits writes in decimal; leading zeros count
/// for nothing.
pub open spec fn digits_value(s: Seq<char>) -> nat
    decreases s.len(),
{
    if s.len() == 0 {
        0
    } else {
        digits_value(s.drop_last()) * 10 + (s.last() as nat - '0' as nat) as nat
    }
}

/// What a text means as a number: an optional `+` or `-`, then at least
/// one digit and nothing but digits, where the value fits a signed number
/// of 32 bits. Every other text, the empty one and one with a blank among
/// them, means no number.
pub open spec fn number_of(s: Seq<char>) -> Option<i32> {
    let signed = s.len() > 0 && (s[0] == '-' || s[0] == '+');
    let body = if signed {
        s.skip(1)
    } else {
        s
    };
    let value = if signed && s[0] == '-' {
        -(digits_value(body) as int)
    } else {
        digits_value(body) as int
    };
    if body.len() > 0 && (forall|i: int| 0 <= i < body.len() ==> is_digit(#[trigger] body[i]))
        && i32::MIN <= value <= i32::MAX {
        Some(value as i32)
    } else {
        None
    }
}

/// The term of input `j` in the line of output `i` of a decoder: the name
/// of the input, negated where bit `j` of `i` is zero.
pub open spec fn decoder_term(i: nat, j: nat) -> Seq<char> {
    if bit_of(i, j) {
        seq![input_names()[j as int]]
    } else {
        seq!['!', input_names()[j as int]]
    }
}

/// The line of output `i` of a decoder with `ins` inputs: the number of the
/// output, ` = `, and the product of the terms of the inputs.
pub open spec fn decoder_line(i: nat, ins: nat) -> Seq<char> {
    decimal(i) + " = "@ + join_spec(Seq::new(ins, |j: int| decoder_term(i, j as nat)), seq!['.'])
}

/// The text of a decoder with `ins` inputs and `outs` outputs: one line for
/// each output, with `;` between the lines. A decoder with a negative
/// number of inputs or with more inputs than there are names has no text.
pub open spec fn decoder_spec(ins: i32, outs: i32) -> Seq<char> {
    if 0 <= ins <= MAX_DECODER_INPUTS && outs > 0 {
        join_spec(Seq::new(outs as nat, |i: int| decoder_line(i as nat, ins as nat)), seq![';'])
    } else {
        Seq::empty()
    }
}

/// The place of the first `x` in a text, if there is exactly one.
pub open spec fn cross_of(s: Seq<char>) -> Option<int> {
    match s.index_of_first('x') {
        Some(i) => if s.index_of_last('x') == Some(i) {
            Some(i)
        } else {
            None
        },
        None => None,
    }
}

/// The text that a decoder is built from, for what the user wrote: the text
/// of the decoder where `s` is two numbers with one `x` between them, and
/// nothing otherwise.
pub open spec fn decoder_text(s: Seq<char>) -> Seq<char> {
    match cross_of(s) {
        Some(i) => match (number_of(s.subrange(0, i)), number_of(s.subrange(i + 1, s.len() as int))) {
            (Some(ins), Some(outs)) => decoder_spec(ins, outs),
            _ => Seq::empty(),
        },
        None => Seq::empty(),
    }
}

/// The text of a seven-segment display: each segment follows the input of
/// its name.
pub open spec fn seven_segment_text() -> Seq<char> {
    "a=a;b=b;c=c;d=d;e=e;f=f;g=g;"@
}

/// Reads a number with `str::parse` for `i32`. Believed of it, as its
/// documentation has it: it takes an optional sign and then decimal digits
/// only, at least one, and fails on every other text and where the value
/// does not fit.
#[verifier::external_body]
fn parse_number(s: &str) -> (r: Option<i32>)
    ensures
        r == number_of(s@),
{
    s.parse::<i32>().ok()
}

/// Bit `j` of `i`.
fn bit_at(i: u64, j: usize) -> (b: bool)
    ensures
        b == bit_of(i as nat, j as nat),
{
    let mut m = i;
    let mut k: usize = 0;
    proof {
        lemma2_to64();
    }
    while k < j
        invariant
            k <= j,
            m == (i as nat) / pow2(k as nat),
        decreases j - k,
    {
        proof {
            lemma_pow2_pos(k as nat);
            lemma_pow2_unfold((k + 1) as nat);
            lemma_div_denominator(i as int, pow2(k as nat) as int, 2);
        }
        m = m / 2;
        k = k + 1;
    }
    m % 2 == 1
}

/// Writes the text of a decoder with `ins` inputs and `outs` outputs.
pub fn decoder_lines(ins: i32, outs: i32) -> (r: String)
    ensures
        r@ == decoder_spec(ins, outs),
{
    if ins < 0 || ins > MAX_DECODER_INPUTS || outs <= 0 {
        return String::new();
    }
    proof {
        reveal_strlit("abcdefghijklmnopqrstuvwxyz");
        reveal_strlit(" = ");
        reveal_strlit("!");
        reveal_strlit(".");
        reveal_strlit(";");
    }
    let ghost all = Seq::new(outs as nat, |i: int| decoder_line(i as nat, ins as nat));
    let mut result: Vec<String> = Vec::new();
    let mut i: i32 = 0;
    while i < outs
        invariant
            0 <= i <= outs,
            0 <= ins <= MAX_DECODER_INPUTS,
            all == Seq::new(outs as nat, |i: int| decoder_line(i as nat, ins as nat)),
            texts(result@) =~= all.take(i as int),
        decreases outs - i,
    {
        let ghost terms = Seq::new(ins as nat, |j: int| decoder_term(i as nat, j as nat));
        let mut temp: Vec<String> = Vec::new();
        let mut j: usize = 0;
        while j < ins as usize
            invariant
                j <= ins,
                0 <= ins <= MAX_DECODER_INPUTS,
                0 <= i,
                terms == Seq::new(ins as nat, |j: int| decoder_term(i as nat, j as nat)),
                texts(temp@) =~= terms.take(j as int),
            decreases ins - j,
        {
            proof {
                reveal_strlit("abcdefghijklmnopqrstuvwxyz");
                reveal_strlit("!");
            }
            let name = "abcdefghijklmnopqrstuvwxyz".substring_char(j, j + 1);
            assert(name@ =~= seq![input_names()[j as int]]);
            let ghost before = temp@;
            if bit_at(i as u64, j) {
                temp.push(String::from_str(name));
                assert(texts(temp@) =~= texts(before).push(name@));
            } else {
                let mut t = String::from_str("!");
                t.append(name);
                assert(t@ =~= seq!['!', input_names()[j as int]]);
                temp.push(t);
                assert(texts(temp@) =~= texts(before).push(t@));
            }
            j = j + 1;
        }
        proof {
            reveal_strlit(" = ");
            reveal_strlit(".");
            assert(terms.take(ins as int) =~= terms);
            assert(texts(temp@).skip(0) =~= texts(temp@));
            assert("."@ =~= seq!['.']);
        }
        let mut line = decimal_string(i as u64);
        line.append(" = ");
        let product = join_from(&temp, 0, ".");
        line.append(product.as_str());
        let ghost before = result@;
        result.push(line);
        assert(texts(result@) =~= texts(before).push(decoder_line(i as nat, ins as nat)));
        i = i + 1;
    }
    proof {
        reveal_strlit(";");
        assert(all.take(outs as int) =~= all);
        assert(texts(result@).skip(0) =~= texts(result@));
        assert(";"@ =~= seq![';']);
    }
    join_from(&result, 0, ";")
}

/// The place of the cross in a text, if there is exactly one.
fn find_cross(s: &str) -> (r: Option<usize>)
    ensures
        match r {
            Some(i) => cross_of(s@) == Some(i as int) && i < s@.len(),
            None => cross_of(s@) is None,
        },
{
    let n = s.unicode_len();
    let mut first: Option<usize> = None;
    let mut count: usize = 0;
    let mut i: usize = 0;
    while i < n
        invariant
            i <= n,
            n == s@.len(),
            count <= i,
            count == 0 <==> first is None,
            count == 0 ==> forall|k: int| 0 <= k < i ==> s@[k] != 'x',
            count == 1 ==> first->Some_0 < i && s@[first->Some_0 as int] == 'x' && forall|k: int|
                0 <= k < i && k != first->Some_0 ==> s@[k] != 'x',
            count >= 2 ==> exists|a: int, b: int|
                0 <= a < b < i && s@[a] == 'x' && s@[b] == 'x',
        decreases n - i,
    {
        if s.get_char(i) == 'x' {
            if count == 0 {
                first = Some(i);
            }
            proof {
                if count == 1 {
                    assert(0 <= first->Some_0 < i && s@[first->Some_0 as int] == 'x' && s@[i as int]
                        == 'x');
                }
                if count >= 2 {
                    let (a, b) = choose|a: int, b: int|
                        0 <= a < b < i && s@[a] == 'x' && s@[b] == 'x';
                    assert(0 <= a < b < i + 1 && s@[a] == 'x' && s@[b] == 'x');
                }
            }
            count = count + 1;
        } else {
            proof {
                if count >= 2 {
                    let (a, b) = choose|a: int, b: int|
                        0 <= a < b < i && s@[a] == 'x' && s@[b] == 'x';
                    assert(0 <= a < b < i + 1 && s@[a] == 'x' && s@[b] == 'x');
                }
            }
        }
        i = i + 1;
    }
    proof {
        s@.index_of_first_ensures('x');
        s@.index_of_last_ensures('x');
        if count >= 2 {
            let (a, b) = choose|a: int, b: int| 0 <= a < b < n && s@[a] == 'x' && s@[b] == 'x';
            assert(s@.contains('x'));
        }
        if count == 1 {
            assert(s@.contains('x'));
        }
    }
    if count == 1 {
        first
    } else {
        None
    }
}

/// The text of a decoder with the given numbers of inputs and outputs, as
/// they were read from the two sides of the cross; nothing where one of
/// them is no number.
pub fn decoder_from(ins: Option<i32>, outs: Option<i32>) -> (r: String)
    ensures
        r@ == match (ins, outs) {
            (Some(a), Some(b)) => decoder_spec(a, b),
            _ => Seq::<char>::empty(),
        },
{
    match (ins, outs) {
        (Some(a), Some(b)) => decoder_lines(a, b),
        _ => String::new(),
    }
}

impl Modulator {
    /// The text that the module is built from, for what the user wrote:
    /// the written text for expressions; the lines of the decoder for a
    /// decoder; the fixed text of the display for a seven-segment display;
    /// and nothing for an encoder.
    pub fn pre_modulate(&self, s: &str) -> (r: String)
        ensures
            r@ == match *self {
                Modulator::Expressions => s@,
                Modulator::Decoder => decoder_text(s@),
                Modulator::Encoder => Seq::<char>::empty(),
                Modulator::SevenSegment => seven_segment_text(),
            },
    {
        match self {
            Modulator::Expressions => String::from_str(s),
            Modulator::Decoder => {
                match find_cross(s) {
                    Some(i) => {
                        let n = s.unicode_len();
                        let left = s.substring_char(0, i);
                        let right = s.substring_char(i + 1, n);
                        decoder_from(parse_number(left), parse_number(right))
                    },
                    None => String::new(),
                }
            },
            Modulator::Encoder => String::new(),
            Modulator::SevenSegment => String::from_str("a=a;b=b;c=c;d=d;e=e;f=f;g=g;"),
        }
    }
}

} // verus!
