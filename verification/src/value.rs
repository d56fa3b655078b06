//! Array values, and the little of a value that signature inference keeps track of.

use vstd::prelude::*;

use crate::number::{byte_bits, from_byte};

verus! {

/// The product of the lengths of all axes.
pub open spec fn cell_count(shape: Seq<usize>) -> nat
    decreases shape.len(),
{
    if shape.len() == 0 {
        1
    } else {
        cell_count(shape.drop_last()) * shape.last() as nat
    }
}

/// A multidimensional array: the lengths of its axes and its elements in row-major order.
/// There is one element for each cell.
#[derive(Debug)]
pub struct Array<T> {
    shape: Vec<usize>,
    data: Vec<T>,
}

impl<T> Array<T> {
    #[verifier::type_invariant]
    spec fn one_element_per_cell(self) -> bool {
        self.data@.len() == cell_count(self.shape@)
    }

    /// The lengths of the axes.
    pub closed spec fn axes(&self) -> Seq<usize> {
        self.shape@
    }

    /// The elements.
    pub closed spec fn elements(&self) -> Seq<T> {
        self.data@
    }

    /// An array of the given shape.
    pub fn new(shape: Vec<usize>, data: Vec<T>) -> (array: Array<T>)
        requires
            data@.len() == cell_count(shape@),
        ensures
            array.axes() == shape@,
            array.elements() == data@,
    {
        Array { shape, data }
    }

    /// The number of axes.
    pub fn rank(&self) -> (rank: usize)
        ensures
            rank == self.axes().len(),
    {
        self.shape.len()
    }

    /// The only element of an array without axes.
    pub fn as_scalar(&self) -> (scalar: Option<&T>)
        ensures
            scalar is Some <==> self.axes().len() == 0,
            scalar matches Some(element) ==> self.elements() == seq![*element],
    {
        proof {
            use_type_invariant(self);
        }
        if self.shape.len() == 0 {
            assert(self.data@ =~= seq![self.data@[0]]);
            Some(&self.data[0])
        } else {
            None
        }
    }
}

/// An array of any element type.
#[derive(Debug)]
pub enum Value {
    /// Numbers, as binary64 bit patterns.
    Num(Array<u64>),
    /// Small natural numbers.
    Byte(Array<u8>),
    /// Complex numbers: the real and the imaginary part, as binary64 bit patterns.
    Complex(Array<(u64, u64)>),
    /// Characters.
    Char(Array<char>),
    /// Boxed values.
    Boxed(Array<Value>),
}

impl Value {
    /// The number of axes.
    pub open spec fn axis_count(&self) -> nat {
        match self {
            Value::Num(array) => array.axes().len(),
            Value::Byte(array) => array.axes().len(),
            Value::Complex(array) => array.axes().len(),
            Value::Char(array) => array.axes().len(),
            Value::Boxed(array) => array.axes().len(),
        }
    }

    /// The number of axes.
    pub fn rank(&self) -> (rank: usize)
        ensures
            rank == self.axis_count(),
    {
        match self {
            Value::Num(array) => array.rank(),
            Value::Byte(array) => array.rank(),
            Value::Complex(array) => array.rank(),
            Value::Char(array) => array.rank(),
            Value::Boxed(array) => array.rank(),
        }
    }
}

/// What is known of a value on the stack.
pub enum Item {
    /// The number with this bit pattern.
    Num(u64),
    /// A list of values of which this much is known.
    Arr(Seq<Item>),
    /// Nothing.
    Other,
    /// It is what stood this far below the top when the code began.
    Unknown(nat),
}

/// What signature inference knows of a value on the stack.
#[derive(Debug)]
pub enum BasicValue {
    Num(u64),
    Arr(Vec<BasicValue>),
    Other,
    Unknown(usize),
}

impl BasicValue {
    pub open spec fn item(self) -> Item
        decreases self,
    {
        match self {
            BasicValue::Num(bits) => Item::Num(bits),
            BasicValue::Arr(values) => Item::Arr(
                Seq::new(
                    values@.len(),
                    |i: int|
                        if 0 <= i < values@.len() {
                            values@[i].item()
                        } else {
                            Item::Other
                        },
                ),
            ),
            BasicValue::Other => Item::Other,
            BasicValue::Unknown(depth) => Item::Unknown(depth as nat),
        }
    }
}

impl View for BasicValue {
    type V = Item;

    open spec fn view(&self) -> Item {
        self.item()
    }
}

/// What is known of each of `values`.
pub open spec fn items(values: Seq<BasicValue>) -> Seq<Item> {
    Seq::new(values.len(), |i: int| values[i].item())
}

pub broadcast proof fn lemma_items_push(values: Seq<BasicValue>, value: BasicValue)
    ensures
        #[trigger] items(values.push(value)) == items(values).push(value@),
{
    assert(items(values.push(value)) =~= items(values).push(value@));
}

pub broadcast proof fn lemma_items_subrange(values: Seq<BasicValue>, from: int, to: int)
    requires
        0 <= from <= to <= values.len(),
    ensures
        #[trigger] items(values.subrange(from, to)) == items(values).subrange(from, to),
{
    assert(items(values.subrange(from, to)) =~= items(values).subrange(from, to));
}

pub broadcast proof fn lemma_items_add(values: Seq<BasicValue>, more: Seq<BasicValue>)
    ensures
        #[trigger] items(values + more) == items(values) + items(more),
{
    assert(items(values + more) =~= items(values) + items(more));
}

/// The known numbers with the given bit patterns.
pub open spec fn numbers(bits: Seq<u64>) -> Seq<Item> {
    Seq::new(bits.len(), |i: int| Item::Num(bits[i]))
}

/// `count` values of which nothing is known.
pub open spec fn others(count: nat) -> Seq<Item> {
    Seq::new(count, |i: int| Item::Other)
}

/// The known numbers that are equal to the given bytes.
pub open spec fn byte_numbers(bytes: Seq<u8>) -> Seq<Item> {
    Seq::new(bytes.len(), |i: int| Item::Num(byte_bits(bytes[i])))
}

/// What is known of an array whose elements are not plain numbers: the length of a list.
pub open spec fn known_of_opaque(rank: nat, length: nat) -> Item {
    if rank == 1 {
        Item::Arr(others(length))
    } else {
        Item::Other
    }
}

/// What is known of `value`: a scalar number, the elements of a list, and nothing else.
pub open spec fn known_of(value: Value) -> Item {
    match value {
        Value::Num(array) => if array.axes().len() == 0 {
            Item::Num(array.elements()[0])
        } else if array.axes().len() == 1 {
            Item::Arr(numbers(array.elements()))
        } else {
            Item::Other
        },
        Value::Byte(array) => if array.axes().len() == 0 {
            Item::Num(byte_bits(array.elements()[0]))
        } else if array.axes().len() == 1 {
            Item::Arr(byte_numbers(array.elements()))
        } else {
            Item::Other
        },
        Value::Complex(array) => known_of_opaque(array.axes().len(), array.elements().len()),
        Value::Char(array) => known_of_opaque(array.axes().len(), array.elements().len()),
        Value::Boxed(array) => known_of_opaque(array.axes().len(), array.elements().len()),
    }
}

/// `count` values of which nothing is known.
pub fn other_values(count: usize) -> (values: Vec<BasicValue>)
    ensures
        items(values@) == others(count as nat),
{
    broadcast use lemma_items_push;

    let mut values: Vec<BasicValue> = Vec::new();
    for i in 0..count
        invariant
            items(values@) == others(i as nat),
    {
        values.push(BasicValue::Other);
        assert(others((i + 1) as nat) =~= others(i as nat).push(Item::Other));
    }
    values
}

impl BasicValue {
    /// The list of the numbers with the given bit patterns.
    pub fn from_numbers(bits: &[u64]) -> (value: BasicValue)
        ensures
            value@ == Item::Arr(numbers(bits@)),
    {
        broadcast use lemma_items_push;

        let mut values: Vec<BasicValue> = Vec::new();
        for i in 0..bits.len()
            invariant
                items(values@) == numbers(bits@.take(i as int)),
        {
            values.push(BasicValue::Num(bits[i]));
            assert(numbers(bits@.take(i + 1)) =~= numbers(bits@.take(i as int)).push(
                Item::Num(bits@[i as int]),
            ));
        }
        assert(bits@.take(bits@.len() as int) =~= bits@);
        BasicValue::list(values)
    }

    /// The list of the given values.
    pub fn list(values: Vec<BasicValue>) -> (value: BasicValue)
        ensures
            value@ == Item::Arr(items(values@)),
    {
        let value = BasicValue::Arr(values);
        assert(value.item()->Arr_0 =~= items(values@));
        value
    }

    /// The list of the numbers that are equal to the given bytes.
    fn from_bytes(bytes: &[u8]) -> (value: BasicValue)
        ensures
            value@ == Item::Arr(byte_numbers(bytes@)),
    {
        broadcast use lemma_items_push;

        let mut values: Vec<BasicValue> = Vec::new();
        for i in 0..bytes.len()
            invariant
                items(values@) == byte_numbers(bytes@.take(i as int)),
        {
            values.push(BasicValue::Num(from_byte(bytes[i])));
            assert(byte_numbers(bytes@.take(i + 1)) =~= byte_numbers(bytes@.take(i as int)).push(
                Item::Num(byte_bits(bytes@[i as int])),
            ));
        }
        assert(bytes@.take(bytes@.len() as int) =~= bytes@);
        BasicValue::list(values)
    }

    /// What is known of `value`: a scalar number, the elements of a list, and nothing else.
    pub fn from_val(value: &Value) -> (known: BasicValue)
        ensures
            known@ == known_of(*value),
    {
        if let Value::Num(array) = value {
            if let Some(bits) = array.as_scalar() {
                return BasicValue::Num(*bits);
            }
        }
        if let Value::Byte(array) = value {
            if let Some(byte) = array.as_scalar() {
                return BasicValue::Num(from_byte(*byte));
            }
        }
        if value.rank() == 1 {
            match value {
                Value::Num(array) => BasicValue::from_numbers(array.data.as_slice()),
                Value::Byte(array) => BasicValue::from_bytes(array.data.as_slice()),
                Value::Complex(array) => BasicValue::list(other_values(array.data.len())),
                Value::Char(array) => BasicValue::list(other_values(array.data.len())),
                Value::Boxed(array) => BasicValue::list(other_values(array.data.len())),
            }
        } else {
            BasicValue::Other
        }
    }
}

impl Clone for BasicValue {
    fn clone(&self) -> (copy: BasicValue)
        ensures
            copy@ == self@,
        decreases self,
    {
        broadcast use lemma_items_push;

        match self {
            BasicValue::Num(bits) => BasicValue::Num(*bits),
            BasicValue::Arr(values) => {
                let mut copies: Vec<BasicValue> = Vec::new();
                for i in 0..values.len()
                    invariant
                        self matches BasicValue::Arr(all) && *all == *values,
                        items(copies@) == items(values@).take(i as int),
                {
                    copies.push(values[i].clone());
                    assert(items(values@).take(i + 1) =~= items(values@).take(i as int).push(
                        values@[i as int]@,
                    ));
                }
                assert(self.item()->Arr_0 =~= items(copies@));
                BasicValue::list(copies)
            },
            BasicValue::Other => BasicValue::Other,
            BasicValue::Unknown(depth) => BasicValue::Unknown(*depth),
        }
    }
}

} // verus!
