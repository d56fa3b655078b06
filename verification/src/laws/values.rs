//! What numbers, values, texts and signatures mean.

use vstd::prelude::*;
use vstd::arithmetic::div_mod::{
    lemma_div_multiples_vanish, lemma_fundamental_div_mod, lemma_mod_multiples_basic,
};
use vstd::arithmetic::power2::{lemma2_to64, lemma_pow2_pos, pow2};

use crate::error::{incorrect, SigCheckError};
use crate::instr::TempStack;
use crate::model::{no_function, too_many_args};
use crate::number::{
    byte_bits_denote_the_byte, count_of, exponent_field, fraction_field, lemma_below_one,
    sign_bit, significand, Count,
};
use crate::signature::{composed_args, composed_outputs, signature_text, Signature};
use crate::text::{decimal, digit};
use crate::value::{cell_count, items, known_of, BasicValue, Item, Value};

verus! {

/// The bit pattern with the given sign, exponent and fraction fields.
pub open spec fn pattern(negative: bool, exponent: nat, fraction: nat) -> u64 {
    ((if negative {
        0x8000_0000_0000_0000int
    } else {
        0
    }) + exponent * 0x10_0000_0000_0000 + fraction) as u64
}

proof fn lemma_fields(negative: bool, exponent: nat, fraction: nat)
    requires
        exponent < 2048,
        fraction < 0x10_0000_0000_0000,
    ensures
        exponent_field(pattern(negative, exponent, fraction)) == exponent,
        fraction_field(pattern(negative, exponent, fraction)) == fraction,
        sign_bit(pattern(negative, exponent, fraction)) == negative,
{
}

/// A positive number below 2 to the power of 53 is the count `n` exactly if it is equal to `n`,
/// which may be any natural number: its significand, which lacks as many binary places as the
/// exponent field is below 1075, is `n` with as many zeros appended.
pub proof fn whole_numbers_count(exponent: nat, fraction: nat, n: nat)
    requires
        0 < exponent <= 1075,
        fraction < 0x10_0000_0000_0000,
        n <= usize::MAX,
    ensures
        count_of(pattern(false, exponent, fraction)) == Count::Natural(n as usize) <==> n * pow2(
            (1075 - exponent) as nat,
        ) == 0x10_0000_0000_0000 + fraction || n == usize::MAX && exists|m: nat|
            m > n && #[trigger] (m * pow2((1075 - exponent) as nat)) == 0x10_0000_0000_0000
                + fraction,
{
    let bits = pattern(false, exponent, fraction);
    lemma_fields(false, exponent, fraction);
    let unit = pow2((1075 - exponent) as nat);
    let whole = significand(bits);
    lemma_pow2_pos((1075 - exponent) as nat);
    lemma2_to64();
    assert(whole == 0x10_0000_0000_0000 + fraction);
    if exponent == 1075 {
        assert(unit == 1);
        assert(n * unit == n) by (nonlinear_arith)
            requires
                unit == 1,
        ;
        assert(whole * unit == whole) by (nonlinear_arith)
            requires
                unit == 1,
        ;
    }
    assert forall|m: nat| #[trigger] (m * unit) == whole implies whole % unit == 0 && whole / unit
        == m by {
        lemma_mod_multiples_basic(m as int, unit as int);
        lemma_div_multiples_vanish(m as int, unit as int);
        assert(unit * m == m * unit) by (nonlinear_arith);
    }
    if whole % unit == 0 {
        let m = whole / unit;
        lemma_fundamental_div_mod(whole as int, unit as int);
        assert(unit * m == m * unit) by (nonlinear_arith);
        assert(m * unit == whole);
    }
}

/// A positive number below 2 to the power of 53 that is equal to no natural number is no count.
pub proof fn fractions_do_not_count(exponent: nat, fraction: nat)
    requires
        0 < exponent <= 1075,
        fraction < 0x10_0000_0000_0000,
        forall|n: nat|
            #[trigger] (n * pow2((1075 - exponent) as nat)) != 0x10_0000_0000_0000 + fraction,
    ensures
        count_of(pattern(false, exponent, fraction)) is Neither,
{
    let bits = pattern(false, exponent, fraction);
    lemma_fields(false, exponent, fraction);
    let unit = pow2((1075 - exponent) as nat);
    let whole = significand(bits);
    lemma_pow2_pos((1075 - exponent) as nat);
    lemma2_to64();
    if exponent == 1075 {
        assert(whole * unit == whole) by (nonlinear_arith)
            requires
                unit == 1,
        ;
    } else if whole % unit == 0 {
        let m = whole / unit;
        lemma_fundamental_div_mod(whole as int, unit as int);
        assert(unit * m == m * unit) by (nonlinear_arith);
        assert(m * unit == whole);
    }
}

/// A positive number from 2 to the power of 53 on is always natural. It counts for what it is, or
/// for the greatest machine integer, if that is less.
pub proof fn great_numbers_count(exponent: nat, fraction: nat)
    requires
        1075 < exponent < 2047,
        fraction < 0x10_0000_0000_0000,
    ensures
        ({
            let number = (0x10_0000_0000_0000 + fraction) * pow2((exponent - 1075) as nat);
            count_of(pattern(false, exponent, fraction)) == Count::Natural(
                if number <= usize::MAX {
                    number as usize
                } else {
                    usize::MAX
                },
            )
        }),
{
    lemma_fields(false, exponent, fraction);
}

/// Zero counts as such, whatever its sign. Smaller fractions than the format can hold in full are
/// no counts, nor are negative numbers. Infinity is one of its own kind, whatever its sign, and
/// what is not a number is no count.
pub proof fn special_numbers(negative: bool, exponent: nat, fraction: nat)
    requires
        exponent < 2048,
        fraction < 0x10_0000_0000_0000,
    ensures
        ({
            let count = count_of(pattern(negative, exponent, fraction));
            &&& exponent == 0 && fraction == 0 ==> count == Count::Natural(0)
            &&& exponent == 0 && fraction > 0 ==> count is Neither
            &&& 0 < exponent < 2047 && negative ==> count is Neither
            &&& exponent == 2047 && fraction == 0 ==> count is Infinite
            &&& exponent == 2047 && fraction > 0 ==> count is Neither
        }),
{
    let bits = pattern(negative, exponent, fraction);
    lemma_fields(negative, exponent, fraction);
    if exponent == 0 {
        lemma_below_one(bits);
    }
}

/// What is known of a value: of a scalar number that number, of a list of numbers each of its
/// elements, of any other list its length, and of anything else nothing. A byte is known as the
/// number that counts as often.
pub proof fn known_values(value: Value)
    ensures
        match value {
            Value::Num(array) => {
                &&& array.axes().len() == 0 ==> known_of(value) == Item::Num(array.elements()[0])
                &&& array.axes().len() == 1 ==> {
                    &&& known_of(value) matches Item::Arr(list)
                    &&& list.len() == array.elements().len()
                    &&& forall|i: int|
                        0 <= i < list.len() ==> #[trigger] list[i] == Item::Num(array.elements()[i])
                }
                &&& array.axes().len() > 1 ==> known_of(value) is Other
            },
            Value::Byte(array) => {
                &&& array.axes().len() == 0 ==> {
                    &&& known_of(value) matches Item::Num(bits)
                    &&& bits < 0x8000_0000_0000_0000
                    &&& count_of(bits) == Count::Natural(array.elements()[0] as usize)
                }
                &&& array.axes().len() == 1 ==> {
                    &&& known_of(value) matches Item::Arr(list)
                    &&& list.len() == array.elements().len()
                    &&& forall|i: int|
                        0 <= i < list.len() ==> (#[trigger] list[i] matches Item::Num(bits) && bits
                            < 0x8000_0000_0000_0000 && count_of(bits) == Count::Natural(
                            array.elements()[i] as usize,
                        ))
                }
                &&& array.axes().len() > 1 ==> known_of(value) is Other
            },
            Value::Complex(array) => known_length(
                known_of(value),
                array.axes().len(),
                array.elements().len(),
            ),
            Value::Char(array) => known_length(
                known_of(value),
                array.axes().len(),
                array.elements().len(),
            ),
            Value::Boxed(array) => known_length(
                known_of(value),
                array.axes().len(),
                array.elements().len(),
            ),
        },
{
    if let Value::Byte(array) = value {
        byte_bits_denote_the_byte(array.elements()[0]);
        if let Item::Arr(list) = known_of(value) {
            assert forall|i: int| 0 <= i < list.len() implies (#[trigger] list[i] matches Item::Num(
                bits,
            ) && bits < 0x8000_0000_0000_0000 && count_of(bits) == Count::Natural(
                array.elements()[i] as usize,
            )) by {
                byte_bits_denote_the_byte(array.elements()[i]);
            }
        }
    }
}

/// Whether what is known of a value is that it is a list of `length`, if it has one axis, and else
/// nothing.
pub open spec fn known_length(item: Item, rank: nat, length: nat) -> bool {
    if rank == 1 {
        &&& item matches Item::Arr(list)
        &&& list.len() == length
        &&& forall|i: int| 0 <= i < list.len() ==> #[trigger] list[i] is Other
    } else {
        item is Other
    }
}

/// A value on the stack stands for what it says: a number for that number, a list for what its
/// elements stand for, one after the other.
pub proof fn stack_values_stand_for_items(value: BasicValue, values: Seq<BasicValue>)
    ensures
        match value {
            BasicValue::Num(bits) => value@ == Item::Num(bits),
            BasicValue::Arr(elements) => {
                &&& value@ matches Item::Arr(list)
                &&& list.len() == elements@.len()
                &&& forall|i: int| 0 <= i < list.len() ==> #[trigger] list[i] == elements@[i]@
            },
            BasicValue::Other => value@ is Other,
            BasicValue::Unknown(depth) => value@ == Item::Unknown(depth as nat),
        },
        items(values).len() == values.len(),
        forall|i: int| 0 <= i < values.len() ==> #[trigger] items(values)[i] == values[i]@,
{
}

/// An array without axes has one cell. One more axis multiplies the cells by its length.
pub proof fn axes_multiply_the_cells(shape: Seq<usize>, length: usize)
    ensures
        cell_count(Seq::empty()) == 1,
        cell_count(shape.push(length)) == cell_count(shape) * length,
{
    assert(shape.push(length).drop_last() =~= shape);
}

/// The temporary stacks are told apart by their places, and there are no others.
pub proof fn temporary_stacks_have_places(stack: TempStack)
    ensures
        TempStack::CARDINALITY == 2,
        stack is Under ==> stack.position() == 0,
        stack is Inline ==> stack.position() == 1,
{
}

/// An error says what its message says, and is of its kind. Want of values and want of functions
/// have their own messages.
pub proof fn errors_say_their_message(error: SigCheckError, message: Seq<char>)
    ensures
        error@.message == error.message@,
        error@.kind == error.kind,
        incorrect(message).message == message,
        incorrect(message).kind is Incorrect,
        too_many_args().message == "function has too many args"@,
        too_many_args().kind is Incorrect,
        no_function().message == "expected function. This is an interpreter bug"@,
        no_function().kind is Incorrect,
{
}

/// The number that the digits of a text stand for.
pub open spec fn number_of(text: Seq<char>) -> int
    decreases text.len(),
{
    if text.len() == 0 {
        0
    } else {
        10 * number_of(text.subrange(0, text.len() - 1)) + (text[text.len() - 1] as u32
            - '0' as u32)
    }
}

/// A number in decimal consists of digits, of which the first is no zero unless it is the only one,
/// and read back it is the number.
pub proof fn decimals_read_back(n: nat)
    ensures
        decimal(n).len() > 0,
        forall|i: int| 0 <= i < decimal(n).len() ==> '0' <= #[trigger] decimal(n)[i] <= '9',
        n > 0 ==> decimal(n)[0] != '0',
        n < 10 ==> decimal(n).len() == 1,
        number_of(decimal(n)) == n,
    decreases n,
{
    let text = decimal(n);
    if n < 10 {
        assert(number_of(text.subrange(0, 0)) == 0);
        assert(text[0] == digit(n));
    } else {
        decimals_read_back(n / 10);
        assert(text.subrange(0, text.len() - 1) =~= decimal(n / 10));
        assert(text[text.len() - 1] == digit(n % 10));
        assert(text[0] == decimal(n / 10)[0]);
        assert forall|i: int| 0 <= i < text.len() implies '0' <= #[trigger] text[i] <= '9' by {
            if i < text.len() - 1 {
                assert(text[i] == decimal(n / 10)[i]);
            }
        }
    }
}

/// The text of a signature is a bar, the arguments, a dot and the outputs, where each number is
/// written in decimal.
pub proof fn signature_texts_read_back(sig: Signature)
    ensures
        ({
            let text = signature_text(sig);
            let dot: int = 1 + decimal(sig.args as nat).len() as int;
            &&& text[0] == '|'
            &&& 1 < dot < text.len() - 1
            &&& text[dot] == '.'
            &&& number_of(text.subrange(1, dot)) == sig.args
            &&& number_of(text.subrange(dot + 1, text.len() as int)) == sig.outputs
        }),
{
    let text = signature_text(sig);
    let dot: int = 1 + decimal(sig.args as nat).len() as int;
    decimals_read_back(sig.args as nat);
    decimals_read_back(sig.outputs as nat);
    assert(text.subrange(1, dot) =~= decimal(sig.args as nat));
    assert(text.subrange(dot + 1, text.len() as int) =~= decimal(sig.outputs as nat));
}

/// What does one thing and then another adds to the stack what the two add. It takes what the first
/// takes, and what the second takes beyond what the first leaves.
pub proof fn composition_adds_up(first: Signature, second: Signature)
    ensures
        composed_outputs(second, first) - composed_args(second, first) == first.outputs - first.args
            + second.outputs - second.args,
        composed_args(second, first) >= first.args,
        second.args <= first.outputs ==> composed_args(second, first) == first.args,
        second.args >= first.outputs ==> composed_outputs(second, first) == second.outputs,
{
}

} // verus!
