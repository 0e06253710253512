//! The attributes of a point and their layout in a point record.

use crate::model::vector3::{UNITS_PER_LENGTH, Vector3};
use vstd::prelude::*;

verus! {

/// The number type of the components of an attribute.
#[derive(Clone, Copy, Debug, PartialEq, Eq, Structural)]
pub enum AttributeType {
    INT8,
    INT16,
    INT32,
    INT64,
    UINT8,
    UINT16,
    UINT32,
    UINT64,
    FLOAT,
    DOUBLE,
    UNDEFINED,
}

/// The number that stands for a number type.
pub open spec fn type_number(kind: AttributeType) -> int {
    match kind {
        AttributeType::INT8 => 0,
        AttributeType::INT16 => 1,
        AttributeType::INT32 => 2,
        AttributeType::INT64 => 3,
        AttributeType::UINT8 => 10,
        AttributeType::UINT16 => 11,
        AttributeType::UINT32 => 12,
        AttributeType::UINT64 => 13,
        AttributeType::FLOAT => 20,
        AttributeType::DOUBLE => 21,
        AttributeType::UNDEFINED => 123456,
    }
}

/// The text that stands for a number type: its name as a JSON string.
pub open spec fn type_text(kind: AttributeType) -> Seq<char> {
    match kind {
        AttributeType::INT8 => "\"INT8\""@,
        AttributeType::INT16 => "\"INT16\""@,
        AttributeType::INT32 => "\"INT32\""@,
        AttributeType::INT64 => "\"INT64\""@,
        AttributeType::UINT8 => "\"UINT8\""@,
        AttributeType::UINT16 => "\"UINT16\""@,
        AttributeType::UINT32 => "\"UINT32\""@,
        AttributeType::UINT64 => "\"UINT64\""@,
        AttributeType::FLOAT => "\"FLOAT\""@,
        AttributeType::DOUBLE => "\"DOUBLE\""@,
        AttributeType::UNDEFINED => "\"UNDEFINED\""@,
    }
}

impl AttributeType {
    /// The number that stands for the number type.
    pub fn number(&self) -> (n: i32)
        ensures
            n == type_number(*self),
    {
        match self {
            AttributeType::INT8 => 0,
            AttributeType::INT16 => 1,
            AttributeType::INT32 => 2,
            AttributeType::INT64 => 3,
            AttributeType::UINT8 => 10,
            AttributeType::UINT16 => 11,
            AttributeType::UINT32 => 12,
            AttributeType::UINT64 => 13,
            AttributeType::FLOAT => 20,
            AttributeType::DOUBLE => 21,
            AttributeType::UNDEFINED => 123456,
        }
    }

    /// The text that stands for the number type: its name as a JSON
    /// string.
    pub fn text(&self) -> (t: String)
        ensures
            t@ == type_text(*self),
    {
        match self {
            AttributeType::INT8 => String::from_str("\"INT8\""),
            AttributeType::INT16 => String::from_str("\"INT16\""),
            AttributeType::INT32 => String::from_str("\"INT32\""),
            AttributeType::INT64 => String::from_str("\"INT64\""),
            AttributeType::UINT8 => String::from_str("\"UINT8\""),
            AttributeType::UINT16 => String::from_str("\"UINT16\""),
            AttributeType::UINT32 => String::from_str("\"UINT32\""),
            AttributeType::UINT64 => String::from_str("\"UINT64\""),
            AttributeType::FLOAT => String::from_str("\"FLOAT\""),
            AttributeType::DOUBLE => String::from_str("\"DOUBLE\""),
            AttributeType::UNDEFINED => String::from_str("\"UNDEFINED\""),
        }
    }
}

/// One attribute of a point.
pub struct Attribute {
    pub name: String,
    pub description: String,
    /// The number of bytes of the attribute in a point record.
    pub size: i32,
    /// The number of components.
    pub num_elements: i32,
    /// The number of bytes of one component.
    pub element_size: i32,
    pub kind: AttributeType,
    /// The least value of each component.
    pub min: Vector3,
    /// The greatest value of each component.
    pub max: Vector3,
}

impl Attribute {
    /// The three byte counts fit in one byte each.
    pub open spec fn wf(&self) -> bool {
        &&& 0 <= self.size <= u8::MAX
        &&& 0 <= self.num_elements <= u8::MAX
        &&& 0 <= self.element_size <= u8::MAX
    }
}

/// The attributes of a point, in the order in which they stand in a point
/// record.
pub struct Attributes {
    pub list: Vec<Attribute>,
    pub bytes: i32,
    /// The quantization step of a position along each axis.
    pub pos_scale: Vector3,
    /// The origin against which positions are quantized.
    pub pos_offset: Vector3,
}

/// The sizes of the first `n` attributes, added up.
pub open spec fn sizes_before(list: Seq<Attribute>, n: nat) -> int
    decreases n,
{
    if n == 0 {
        0
    } else {
        sizes_before(list, (n - 1) as nat) + list[n - 1].size
    }
}

/// The index of the first of the attributes `from..` with the given name,
/// or the number of attributes if there is none.
pub open spec fn index_of(list: Seq<Attribute>, name: Seq<char>, from: nat) -> nat
    decreases list.len() - from,
{
    if from >= list.len() {
        from
    } else if list[from as int].name@ == name {
        from
    } else {
        index_of(list, name, from + 1)
    }
}

/// The sizes of more attributes add up to no less.
pub proof fn lemma_sizes_before_grow(list: Seq<Attribute>, n: nat, m: nat)
    requires
        n <= m <= list.len(),
        forall|i: int| 0 <= i < list.len() ==> (#[trigger] list[i]).wf(),
    ensures
        0 <= sizes_before(list, n) <= sizes_before(list, m),
    decreases m,
{
    if n < m {
        lemma_sizes_before_grow(list, n, (m - 1) as nat);
    } else if n > 0 {
        lemma_sizes_before_grow(list, (n - 1) as nat, (n - 1) as nat);
    }
}

impl Attributes {
    /// Every attribute is well formed, and the sizes of all of them add up
    /// to a 32-bit number.
    pub open spec fn wf(&self) -> bool {
        &&& forall|i: int| 0 <= i < self.list@.len() ==> (#[trigger] self.list@[i]).wf()
        &&& sizes_before(self.list@, self.list@.len()) <= i32::MAX
    }

    /// No attributes; positions are in length units from the origin.
    pub fn new() -> (attributes: Attributes)
        ensures
            attributes.list@.len() == 0,
            attributes.bytes == 0,
            attributes.pos_scale == (Vector3 {
                x: UNITS_PER_LENGTH,
                y: UNITS_PER_LENGTH,
                z: UNITS_PER_LENGTH,
            }),
            attributes.pos_offset == (Vector3 { x: 0, y: 0, z: 0 }),
            attributes.wf(),
    {
        Attributes {
            bytes: 0,
            pos_scale: Vector3 { x: UNITS_PER_LENGTH, y: UNITS_PER_LENGTH, z: UNITS_PER_LENGTH },
            pos_offset: Vector3 { x: 0, y: 0, z: 0 },
            list: Vec::new(),
        }
    }

    /// The given attributes; positions are in length units from the origin.
    pub fn from_attributes(attributes: Vec<Attribute>) -> (result: Attributes)
        ensures
            result.list == attributes,
            result.bytes == 0,
            result.pos_scale == (Vector3 {
                x: UNITS_PER_LENGTH,
                y: UNITS_PER_LENGTH,
                z: UNITS_PER_LENGTH,
            }),
            result.pos_offset == (Vector3 { x: 0, y: 0, z: 0 }),
    {
        Attributes {
            bytes: 0,
            pos_scale: Vector3 { x: UNITS_PER_LENGTH, y: UNITS_PER_LENGTH, z: UNITS_PER_LENGTH },
            pos_offset: Vector3 { x: 0, y: 0, z: 0 },
            list: attributes,
        }
    }

    /// The offset of the first attribute with the given name in a point
    /// record: the sizes of the attributes before it, added up; -1 if no
    /// attribute has the name.
    pub fn get_offset(&self, name: String) -> (offset: i32)
        requires
            self.wf(),
        ensures
            offset == if index_of(self.list@, name@, 0) < self.list@.len() {
                sizes_before(self.list@, index_of(self.list@, name@, 0))
            } else {
                -1
            },
    {
        let mut offset: i32 = 0;
        let mut k: usize = 0;
        while k < self.list.len()
            invariant
                k <= self.list@.len(),
                self.wf(),
                offset == sizes_before(self.list@, k as nat),
                index_of(self.list@, name@, 0) == index_of(self.list@, name@, k as nat),
            decreases self.list@.len() - k,
        {
            let attribute = &self.list[k];
            if attribute.name == name {
                return offset;
            }
            proof {
                lemma_sizes_before_grow(self.list@, (k + 1) as nat, self.list@.len() as nat);
                lemma_sizes_before_grow(self.list@, k as nat, (k + 1) as nat);
            }
            offset += attribute.size;
            k += 1;
        }
        -1
    }

    /// The first attribute with the given name, if any.
    pub fn get(&self, name: String) -> (found: Option<&Attribute>)
        ensures
            match found {
                Some(attribute) => index_of(self.list@, name@, 0) < self.list@.len() && *attribute
                    == self.list@[index_of(self.list@, name@, 0) as int],
                None => index_of(self.list@, name@, 0) >= self.list@.len(),
            },
    {
        let mut k: usize = 0;
        while k < self.list.len()
            invariant
                k <= self.list@.len(),
                index_of(self.list@, name@, 0) == index_of(self.list@, name@, k as nat),
            decreases self.list@.len() - k,
        {
            let attribute = &self.list[k];
            if attribute.name == name {
                return Some(attribute);
            }
            k += 1;
        }
        None
    }
}

} // verus!
