//! Column types and cell values, with their mathematical models.

use vstd::prelude::*;

verus! {

/// The declared type of a column or of a value.
#[derive(Debug, PartialEq)]
pub enum TypeDefs {
    /// Text.
    String,
    /// One Unicode scalar value.
    Char,
    /// Signed 8-bit integer.
    I8,
    /// Signed 64-bit integer.
    I64,
    /// Unsigned 64-bit integer.
    U64,
    /// Truth value.
    Bool,
    /// 32-bit float.
    F32,
    /// 64-bit float.
    F64,
    /// Array whose elements all have the given type.
    Array(Box<TypeDefs>),
}

/// The number that stands for the kind of `t` in a stored schema.
pub open spec fn kind_code(t: TypeDefs) -> u8 {
    match t {
        TypeDefs::String => 0,
        TypeDefs::Char => 1,
        TypeDefs::I8 => 2,
        TypeDefs::I64 => 3,
        TypeDefs::U64 => 4,
        TypeDefs::Bool => 5,
        TypeDefs::F32 => 6,
        TypeDefs::F64 => 7,
        TypeDefs::Array(_) => 8,
    }
}

/// The type without items that `code` stands for; a code that stands for
/// none is read as the code of text.
pub open spec fn plain_type(code: u8) -> TypeDefs {
    if code == 1 {
        TypeDefs::Char
    } else if code == 2 {
        TypeDefs::I8
    } else if code == 3 {
        TypeDefs::I64
    } else if code == 4 {
        TypeDefs::U64
    } else if code == 5 {
        TypeDefs::Bool
    } else if code == 6 {
        TypeDefs::F32
    } else if code == 7 {
        TypeDefs::F64
    } else {
        TypeDefs::String
    }
}

/// The type that a pair of codes stands for: the first code gives the kind,
/// and for an array the second gives the kind of its items, where the code
/// of an array stands for an array of text.
pub open spec fn type_of_layers(base: u8, second_layer: u8) -> TypeDefs {
    if base < 8 {
        plain_type(base)
    } else if second_layer < 8 {
        TypeDefs::Array(Box::new(plain_type(second_layer)))
    } else {
        TypeDefs::Array(Box::new(TypeDefs::Array(Box::new(TypeDefs::String))))
    }
}

impl Clone for TypeDefs {
    fn clone(&self) -> (res: Self)
        ensures
            res == *self,
        decreases *self,
    {
        match self {
            TypeDefs::String => TypeDefs::String,
            TypeDefs::Char => TypeDefs::Char,
            TypeDefs::I8 => TypeDefs::I8,
            TypeDefs::I64 => TypeDefs::I64,
            TypeDefs::U64 => TypeDefs::U64,
            TypeDefs::Bool => TypeDefs::Bool,
            TypeDefs::F32 => TypeDefs::F32,
            TypeDefs::F64 => TypeDefs::F64,
            TypeDefs::Array(t) => TypeDefs::Array(Box::new((**t).clone())),
        }
    }
}

impl TypeDefs {
    /// The array type with elements of type `t`.
    pub fn array_of(t: TypeDefs) -> (res: TypeDefs)
        ensures
            res == TypeDefs::Array(Box::new(t)),
    {
        TypeDefs::Array(Box::new(t))
    }

    /// The element type of an array type, and nothing for any other type.
    pub fn inner_type(&self) -> (res: Option<TypeDefs>)
        ensures
            res == match *self {
                TypeDefs::Array(t) => Some(*t),
                _ => None,
            },
    {
        match self {
            TypeDefs::Array(t) => Some((**t).clone()),
            _ => None,
        }
    }

    /// The type without items that `code` stands for.
    fn plain(code: u8) -> (res: TypeDefs)
        requires
            code < 8,
        ensures
            res == plain_type(code),
            kind_code(res) == code,
    {
        if code == 0 {
            TypeDefs::String
        } else if code == 1 {
            TypeDefs::Char
        } else if code == 2 {
            TypeDefs::I8
        } else if code == 3 {
            TypeDefs::I64
        } else if code == 4 {
            TypeDefs::U64
        } else if code == 5 {
            TypeDefs::Bool
        } else if code == 6 {
            TypeDefs::F32
        } else {
            TypeDefs::F64
        }
    }

    /// The number that stands for the kind of this type.
    pub fn code(&self) -> (res: u8)
        ensures
            res == kind_code(*self),
            res <= 8,
    {
        match self {
            TypeDefs::String => 0,
            TypeDefs::Char => 1,
            TypeDefs::I8 => 2,
            TypeDefs::I64 => 3,
            TypeDefs::U64 => 4,
            TypeDefs::Bool => 5,
            TypeDefs::F32 => 6,
            TypeDefs::F64 => 7,
            TypeDefs::Array(_) => 8,
        }
    }

    /// Builds a type from the code of its kind and, for an array, the code
    /// of the kind of its items.
    pub fn from_base_and_second_layer(base: u8, second_layer: u8) -> (res: TypeDefs)
        requires
            base <= 8,
            base == 8 ==> second_layer <= 8,
        ensures
            res == type_of_layers(base, second_layer),
    {
        if base < 8 {
            TypeDefs::plain(base)
        } else if second_layer < 8 {
            TypeDefs::Array(Box::new(TypeDefs::plain(second_layer)))
        } else {
            TypeDefs::Array(Box::new(TypeDefs::Array(Box::new(TypeDefs::String))))
        }
    }

    /// The code of the kind of this type and, for an array, the code of the
    /// kind of its items; for any other type the second number is 0.
    pub fn get_base_and_second_layer(&self) -> (res: [u8; 2])
        ensures
            res@ == seq![
                kind_code(*self),
                match *self {
                    TypeDefs::Array(inner) => kind_code(*inner),
                    _ => 0u8,
                },
            ],
    {
        let res = match self {
            TypeDefs::Array(inner) => [8, inner.code()],
            _ => [self.code(), 0],
        };
        assert(res@ =~= seq![
            kind_code(*self),
            match *self {
                TypeDefs::Array(inner) => kind_code(*inner),
                _ => 0u8,
            },
        ]);
        res
    }

    /// Whether two types are the same type.
    pub fn same(&self, other: &TypeDefs) -> (res: bool)
        ensures
            res == (*self == *other),
        decreases *self,
    {
        match (self, other) {
            (TypeDefs::String, TypeDefs::String) => true,
            (TypeDefs::Char, TypeDefs::Char) => true,
            (TypeDefs::I8, TypeDefs::I8) => true,
            (TypeDefs::I64, TypeDefs::I64) => true,
            (TypeDefs::U64, TypeDefs::U64) => true,
            (TypeDefs::Bool, TypeDefs::Bool) => true,
            (TypeDefs::F32, TypeDefs::F32) => true,
            (TypeDefs::F64, TypeDefs::F64) => true,
            (TypeDefs::Array(a), TypeDefs::Array(b)) => a.same(b),
            _ => false,
        }
    }
}

/// A value, tagged by its kind. The two float kinds carry the IEEE 754 bit
/// pattern of the number.
#[derive(Debug, PartialEq)]
pub enum Types {
    /// Text.
    String(String),
    /// One Unicode scalar value.
    Char(char),
    /// Signed 8-bit integer.
    I8(i8),
    /// Signed 64-bit integer.
    I64(i64),
    /// Unsigned 64-bit integer.
    U64(u64),
    /// Truth value.
    Bool(bool),
    /// 32-bit float, as its bit pattern.
    F32(u32),
    /// 64-bit float, as its bit pattern.
    F64(u64),
    /// Array of values.
    Array(Vec<SafeType>),
}

/// A value together with the type it is declared to have.
#[derive(Debug, PartialEq)]
pub struct SafeType {
    /// The declared type.
    pub type_id: TypeDefs,
    /// The value.
    pub rtype: Types,
}

/// What a `Types` holds, as a mathematical value.
pub enum Value {
    /// Text, as its characters.
    String(Seq<char>),
    /// One Unicode scalar value.
    Char(char),
    /// Signed 8-bit integer.
    I8(i8),
    /// Signed 64-bit integer.
    I64(i64),
    /// Unsigned 64-bit integer.
    U64(u64),
    /// Truth value.
    Bool(bool),
    /// 32-bit float, as its bit pattern.
    F32(u32),
    /// 64-bit float, as its bit pattern.
    F64(u64),
    /// Array, as its items in order.
    Array(Seq<Cell>),
}

/// What a `SafeType` holds, as a mathematical value.
pub struct Cell {
    /// The declared type.
    pub type_id: TypeDefs,
    /// The value.
    pub value: Value,
}

/// The mathematical value of `t`.
pub open spec fn value_of(t: Types) -> Value
    decreases t,
{
    match t {
        Types::String(s) => Value::String(s@),
        Types::Char(c) => Value::Char(c),
        Types::I8(n) => Value::I8(n),
        Types::I64(n) => Value::I64(n),
        Types::U64(n) => Value::U64(n),
        Types::Bool(b) => Value::Bool(b),
        Types::F32(n) => Value::F32(n),
        Types::F64(n) => Value::F64(n),
        Types::Array(v) => Value::Array(
            Seq::new(
                v@.len(),
                |i: int|
                    if 0 <= i < v@.len() {
                        cell_of(v@[i])
                    } else {
                        arbitrary()
                    },
            ),
        ),
    }
}

/// The mathematical value of `c`.
pub open spec fn cell_of(c: SafeType) -> Cell
    decreases c,
{
    Cell { type_id: c.type_id, value: value_of(c.rtype) }
}

impl View for Types {
    type V = Value;

    open spec fn view(&self) -> Value {
        value_of(*self)
    }
}

impl View for SafeType {
    type V = Cell;

    open spec fn view(&self) -> Cell {
        cell_of(*self)
    }
}

/// The mathematical values of the items of `s`, in order.
pub open spec fn cells_of(s: Seq<SafeType>) -> Seq<Cell> {
    Seq::new(s.len(), |i: int| cell_of(s[i]))
}

/// Whether `c` is a value of type `t` all the way down: it is declared as
/// `t`, it holds data of that kind, and every item of an array is a value of
/// the array's element type.
pub open spec fn well_typed(c: Cell, t: TypeDefs) -> bool
    decreases t,
{
    c.type_id == t && match c.value {
        Value::String(_) => t == TypeDefs::String,
        Value::Char(_) => t == TypeDefs::Char,
        Value::I8(_) => t == TypeDefs::I8,
        Value::I64(_) => t == TypeDefs::I64,
        Value::U64(_) => t == TypeDefs::U64,
        Value::Bool(_) => t == TypeDefs::Bool,
        Value::F32(_) => t == TypeDefs::F32,
        Value::F64(_) => t == TypeDefs::F64,
        Value::Array(items) => match t {
            TypeDefs::Array(inner) => forall|i: int|
                0 <= i < items.len() ==> well_typed(#[trigger] items[i], *inner),
            _ => false,
        },
    }
}

/// Whether `c` may stand in a column of type `t`: it is a value of that
/// type, or it is an empty array and the column holds arrays.
pub open spec fn fits(c: Cell, t: TypeDefs) -> bool {
    well_typed(c, t) || (t is Array && c.value == Value::Array(Seq::<Cell>::empty()))
}

/// The value that is stored for `c` in a column of type `t` that it fits:
/// `c` itself, or the empty array of the column's type.
pub open spec fn stored(c: Cell, t: TypeDefs) -> Cell {
    if well_typed(c, t) {
        c
    } else {
        Cell { type_id: t, value: Value::Array(Seq::<Cell>::empty()) }
    }
}

/// What it takes for a cell to be a value of an array type.
pub proof fn lemma_well_typed_array(c: Cell, inner: TypeDefs)
    ensures
        well_typed(c, TypeDefs::Array(Box::new(inner))) <==> {
            &&& c.type_id == TypeDefs::Array(Box::new(inner))
            &&& c.value is Array
            &&& forall|i: int|
                0 <= i < c.value->Array_0.len() ==> well_typed(
                    #[trigger] c.value->Array_0[i],
                    inner,
                )
        },
{
}

/// An array's mathematical value lists those of its items.
pub proof fn lemma_array_value(v: Vec<SafeType>)
    ensures
        value_of(Types::Array(v)) == Value::Array(cells_of(v@)),
{
    assert(value_of(Types::Array(v))->Array_0 =~= cells_of(v@));
}

impl Clone for Types {
    fn clone(&self) -> (res: Self)
        ensures
            res@ == self@,
        decreases *self,
    {
        match self {
            Types::String(s) => Types::String(s.clone()),
            Types::Char(c) => Types::Char(*c),
            Types::I8(n) => Types::I8(*n),
            Types::I64(n) => Types::I64(*n),
            Types::U64(n) => Types::U64(*n),
            Types::Bool(b) => Types::Bool(*b),
            Types::F32(n) => Types::F32(*n),
            Types::F64(n) => Types::F64(*n),
            Types::Array(v) => {
                let mut items: Vec<SafeType> = Vec::new();
                let mut i: usize = 0;
                while i < v.len()
                    invariant
                        i <= v.len(),
                        items.len() == i,
                        decreases_to!(*self => *v),
                        forall|j: int|
                            0 <= j < i ==> cell_of(#[trigger] items@[j]) == cell_of(v@[j]),
                    decreases v.len() - i,
                {
                    assert(decreases_to!(*v => v[i as int]));
                    let item = v[i].clone();
                    items.push(item);
                    i = i + 1;
                }
                proof {
                    lemma_array_value(items);
                    lemma_array_value(*v);
                    assert(cells_of(items@) =~= cells_of(v@));
                }
                Types::Array(items)
            },
        }
    }
}

impl Clone for SafeType {
    fn clone(&self) -> (res: Self)
        ensures
            res@ == self@,
        decreases *self,
    {
        SafeType { type_id: self.type_id.clone(), rtype: self.rtype.clone() }
    }
}

impl SafeType {
    /// Pairs a value with the type it is declared to have.
    pub fn build(rtype: Types, type_id: TypeDefs) -> (res: SafeType)
        ensures
            res == (SafeType { type_id, rtype }),
    {
        SafeType { type_id, rtype }
    }

    /// A copy of the value.
    pub fn get_type(&self) -> (res: Types)
        ensures
            res@ == self.rtype@,
    {
        self.rtype.clone()
    }

    /// The declared type.
    pub fn get_type_def(&self) -> (res: TypeDefs)
        ensures
            res == self.type_id,
    {
        self.type_id.clone()
    }

    /// Whether this is a value of type `t` all the way down.
    pub fn is_typed(&self, t: &TypeDefs) -> (res: bool)
        ensures
            res == well_typed(self@, *t),
        decreases *t,
    {
        if !self.type_id.same(t) {
            return false;
        }
        match &self.rtype {
            Types::String(_) => t.same(&TypeDefs::String),
            Types::Char(_) => t.same(&TypeDefs::Char),
            Types::I8(_) => t.same(&TypeDefs::I8),
            Types::I64(_) => t.same(&TypeDefs::I64),
            Types::U64(_) => t.same(&TypeDefs::U64),
            Types::Bool(_) => t.same(&TypeDefs::Bool),
            Types::F32(_) => t.same(&TypeDefs::F32),
            Types::F64(_) => t.same(&TypeDefs::F64),
            Types::Array(v) => match t {
                TypeDefs::Array(inner) => {
                    proof {
                        lemma_array_value(*v);
                    }
                    let mut i: usize = 0;
                    while i < v.len()
                        invariant
                            i <= v.len(),
                            *t == TypeDefs::Array(*inner),
                            decreases_to!(*t => **inner),
                            self.type_id == *t,
                            self@.value == Value::Array(cells_of(v@)),
                            forall|j: int|
                                0 <= j < i ==> well_typed(#[trigger] cells_of(v@)[j], **inner),
                        decreases v.len() - i,
                    {
                        if !v[i].is_typed(inner) {
                            proof {
                                lemma_well_typed_array(self@, **inner);
                                assert(!well_typed(cells_of(v@)[i as int], **inner));
                            }
                            return false;
                        }
                        i = i + 1;
                    }
                    true
                },
                _ => false,
            },
        }
    }

    /// Whether this value may stand in a column of type `t`.
    pub fn fits_column(&self, t: &TypeDefs) -> (res: bool)
        ensures
            res == fits(self@, *t),
    {
        if self.is_typed(t) {
            return true;
        }
        match &self.rtype {
            Types::Array(v) => {
                proof {
                    lemma_array_value(*v);
                    if v.len() == 0 {
                        assert(cells_of(v@) =~= Seq::<Cell>::empty());
                    } else {
                        assert(cells_of(v@).len() != 0);
                    }
                }
                match t {
                    TypeDefs::Array(_) => v.len() == 0,
                    _ => false,
                }
            },
            _ => {
                assert(!(self@.value is Array));
                false
            },
        }
    }
}

/// A value is not of the kind that was asked for.
#[derive(Debug, Clone, PartialEq, Eq)]
pub struct TypeMismatch;

/// What can be read out of a value: plain data of one kind, or a list of it.
pub trait FromTypes: Sized {
    /// Whether `v` is of the kind that is read as `Self`.
    spec fn readable(v: Value) -> bool;

    /// Whether `out` is what `v` holds.
    spec fn holds_as(v: Value, out: Self) -> bool;

    /// What `t` holds, if it is of the kind that is read as `Self`.
    fn from_types(t: &Types) -> (res: Result<Self, TypeMismatch>)
        ensures
            match res {
                Ok(out) => Self::readable(t@) && Self::holds_as(t@, out),
                Err(_) => !Self::readable(t@),
            },
    ;
}

impl FromTypes for String {
    open spec fn readable(v: Value) -> bool {
        v is String
    }

    open spec fn holds_as(v: Value, out: String) -> bool {
        v == Value::String(out@)
    }

    fn from_types(t: &Types) -> (res: Result<String, TypeMismatch>) {
        match t {
            Types::String(s) => Ok(s.clone()),
            _ => Err(TypeMismatch),
        }
    }
}

impl FromTypes for Vec<String> {
    open spec fn readable(v: Value) -> bool {
        v is Array && forall|i: int|
            0 <= i < v->Array_0.len() ==> (#[trigger] v->Array_0[i]).value is String
    }

    open spec fn holds_as(v: Value, out: Vec<String>) -> bool {
        v is Array && out@.len() == v->Array_0.len() && forall|i: int|
            0 <= i < out@.len() ==> (#[trigger] v->Array_0[i]).value == Value::String(out@[i]@)
    }

    fn from_types(t: &Types) -> (res: Result<Vec<String>, TypeMismatch>) {
        match t {
            Types::Array(items) => {
                proof {
                    lemma_array_value(*items);
                }
                let mut out: Vec<String> = Vec::new();
                let mut i: usize = 0;
                while i < items.len()
                    invariant
                        i <= items.len(),
                        out.len() == i,
                        t@ == Value::Array(cells_of(items@)),
                        forall|k: int|
                            0 <= k < i ==> (#[trigger] cells_of(items@)[k]).value == Value::String(
                                out@[k]@,
                            ),
                    decreases items.len() - i,
                {
                    match &items[i].rtype {
                        Types::String(s) => {
                            out.push(s.clone());
                        },
                        _ => {
                            assert(!(t@->Array_0[i as int].value is String));
                            return Err(TypeMismatch);
                        },
                    }
                    i = i + 1;
                }
                Ok(out)
            },
            _ => Err(TypeMismatch),
        }
    }
}

impl From<String> for Types {
    fn from(v: String) -> (res: Types) {
        Types::String(v)
    }
}

impl vstd::std_specs::convert::FromSpecImpl<String> for Types {
    open spec fn obeys_from_spec() -> bool {
        true
    }

    open spec fn from_spec(v: String) -> Types {
        Types::String(v)
    }
}

impl From<String> for SafeType {
    fn from(v: String) -> (res: SafeType) {
        SafeType { type_id: TypeDefs::String, rtype: Types::String(v) }
    }
}

impl vstd::std_specs::convert::FromSpecImpl<String> for SafeType {
    open spec fn obeys_from_spec() -> bool {
        true
    }

    open spec fn from_spec(v: String) -> SafeType {
        SafeType { type_id: TypeDefs::String, rtype: Types::String(v) }
    }
}

impl FromTypes for char {
    open spec fn readable(v: Value) -> bool {
        v is Char
    }

    open spec fn holds_as(v: Value, out: char) -> bool {
        v == Value::Char(out)
    }

    fn from_types(t: &Types) -> (res: Result<char, TypeMismatch>) {
        match t {
            Types::Char(s) => Ok(*s),
            _ => Err(TypeMismatch),
        }
    }
}

impl FromTypes for Vec<char> {
    open spec fn readable(v: Value) -> bool {
        v is Array && forall|i: int|
            0 <= i < v->Array_0.len() ==> (#[trigger] v->Array_0[i]).value is Char
    }

    open spec fn holds_as(v: Value, out: Vec<char>) -> bool {
        v is Array && out@.len() == v->Array_0.len() && forall|i: int|
            0 <= i < out@.len() ==> (#[trigger] v->Array_0[i]).value == Value::Char(out@[i])
    }

    fn from_types(t: &Types) -> (res: Result<Vec<char>, TypeMismatch>) {
        match t {
            Types::Array(items) => {
                proof {
                    lemma_array_value(*items);
                }
                let mut out: Vec<char> = Vec::new();
                let mut i: usize = 0;
                while i < items.len()
                    invariant
                        i <= items.len(),
                        out.len() == i,
                        t@ == Value::Array(cells_of(items@)),
                        forall|k: int|
                            0 <= k < i ==> (#[trigger] cells_of(items@)[k]).value == Value::Char(
                                out@[k],
                            ),
                    decreases items.len() - i,
                {
                    match &items[i].rtype {
                        Types::Char(s) => {
                            out.push(*s);
                        },
                        _ => {
                            assert(!(t@->Array_0[i as int].value is Char));
                            return Err(TypeMismatch);
                        },
                    }
                    i = i + 1;
                }
                Ok(out)
            },
            _ => Err(TypeMismatch),
        }
    }
}

impl From<char> for Types {
    fn from(v: char) -> (res: Types) {
        Types::Char(v)
    }
}

impl vstd::std_specs::convert::FromSpecImpl<char> for Types {
    open spec fn obeys_from_spec() -> bool {
        true
    }

    open spec fn from_spec(v: char) -> Types {
        Types::Char(v)
    }
}

impl From<char> for SafeType {
    fn from(v: char) -> (res: SafeType) {
        SafeType { type_id: TypeDefs::Char, rtype: Types::Char(v) }
    }
}

impl vstd::std_specs::convert::FromSpecImpl<char> for SafeType {
    open spec fn obeys_from_spec() -> bool {
        true
    }

    open spec fn from_spec(v: char) -> SafeType {
        SafeType { type_id: TypeDefs::Char, rtype: Types::Char(v) }
    }
}

impl FromTypes for i8 {
    open spec fn readable(v: Value) -> bool {
        v is I8
    }

    open spec fn holds_as(v: Value, out: i8) -> bool {
        v == Value::I8(out)
    }

    fn from_types(t: &Types) -> (res: Result<i8, TypeMismatch>) {
        match t {
            Types::I8(s) => Ok(*s),
            _ => Err(TypeMismatch),
        }
    }
}

impl FromTypes for Vec<i8> {
    open spec fn readable(v: Value) -> bool {
        v is Array && forall|i: int|
            0 <= i < v->Array_0.len() ==> (#[trigger] v->Array_0[i]).value is I8
    }

    open spec fn holds_as(v: Value, out: Vec<i8>) -> bool {
        v is Array && out@.len() == v->Array_0.len() && forall|i: int|
            0 <= i < out@.len() ==> (#[trigger] v->Array_0[i]).value == Value::I8(out@[i])
    }

    fn from_types(t: &Types) -> (res: Result<Vec<i8>, TypeMismatch>) {
        match t {
            Types::Array(items) => {
                proof {
                    lemma_array_value(*items);
                }
                let mut out: Vec<i8> = Vec::new();
                let mut i: usize = 0;
                while i < items.len()
                    invariant
                        i <= items.len(),
                        out.len() == i,
                        t@ == Value::Array(cells_of(items@)),
                        forall|k: int|
                            0 <= k < i ==> (#[trigger] cells_of(items@)[k]).value == Value::I8(
                                out@[k],
                            ),
                    decreases items.len() - i,
                {
                    match &items[i].rtype {
                        Types::I8(s) => {
                            out.push(*s);
                        },
                        _ => {
                            assert(!(t@->Array_0[i as int].value is I8));
                            return Err(TypeMismatch);
                        },
                    }
                    i = i + 1;
                }
                Ok(out)
            },
            _ => Err(TypeMismatch),
        }
    }
}

impl From<i8> for Types {
    fn from(v: i8) -> (res: Types) {
        Types::I8(v)
    }
}

impl vstd::std_specs::convert::FromSpecImpl<i8> for Types {
    open spec fn obeys_from_spec() -> bool {
        true
    }

    open spec fn from_spec(v: i8) -> Types {
        Types::I8(v)
    }
}

impl From<i8> for SafeType {
    fn from(v: i8) -> (res: SafeType) {
        SafeType { type_id: TypeDefs::I8, rtype: Types::I8(v) }
    }
}

impl vstd::std_specs::convert::FromSpecImpl<i8> for SafeType {
    open spec fn obeys_from_spec() -> bool {
        true
    }

    open spec fn from_spec(v: i8) -> SafeType {
        SafeType { type_id: TypeDefs::I8, rtype: Types::I8(v) }
    }
}

impl FromTypes for i64 {
    open spec fn readable(v: Value) -> bool {
        v is I64
    }

    open spec fn holds_as(v: Value, out: i64) -> bool {
        v == Value::I64(out)
    }

    fn from_types(t: &Types) -> (res: Result<i64, TypeMismatch>) {
        match t {
            Types::I64(s) => Ok(*s),
            _ => Err(TypeMismatch),
        }
    }
}

impl FromTypes for Vec<i64> {
    open spec fn readable(v: Value) -> bool {
        v is Array && forall|i: int|
            0 <= i < v->Array_0.len() ==> (#[trigger] v->Array_0[i]).value is I64
    }

    open spec fn holds_as(v: Value, out: Vec<i64>) -> bool {
        v is Array && out@.len() == v->Array_0.len() && forall|i: int|
            0 <= i < out@.len() ==> (#[trigger] v->Array_0[i]).value == Value::I64(out@[i])
    }

    fn from_types(t: &Types) -> (res: Result<Vec<i64>, TypeMismatch>) {
        match t {
            Types::Array(items) => {
                proof {
                    lemma_array_value(*items);
                }
                let mut out: Vec<i64> = Vec::new();
                let mut i: usize = 0;
                while i < items.len()
                    invariant
                        i <= items.len(),
                        out.len() == i,
                        t@ == Value::Array(cells_of(items@)),
                        forall|k: int|
                            0 <= k < i ==> (#[trigger] cells_of(items@)[k]).value == Value::I64(
                                out@[k],
                            ),
                    decreases items.len() - i,
                {
                    match &items[i].rtype {
                        Types::I64(s) => {
                            out.push(*s);
                        },
                        _ => {
                            assert(!(t@->Array_0[i as int].value is I64));
                            return Err(TypeMismatch);
                        },
                    }
                    i = i + 1;
                }
                Ok(out)
            },
            _ => Err(TypeMismatch),
        }
    }
}

impl From<i64> for Types {
    fn from(v: i64) -> (res: Types) {
        Types::I64(v)
    }
}

impl vstd::std_specs::convert::FromSpecImpl<i64> for Types {
    open spec fn obeys_from_spec() -> bool {
        true
    }

    open spec fn from_spec(v: i64) -> Types {
        Types::I64(v)
    }
}

impl From<i64> for SafeType {
    fn from(v: i64) -> (res: SafeType) {
        SafeType { type_id: TypeDefs::I64, rtype: Types::I64(v) }
    }
}

impl vstd::std_specs::convert::FromSpecImpl<i64> for SafeType {
    open spec fn obeys_from_spec() -> bool {
        true
    }

    open spec fn from_spec(v: i64) -> SafeType {
        SafeType { type_id: TypeDefs::I64, rtype: Types::I64(v) }
    }
}

impl FromTypes for u64 {
    open spec fn readable(v: Value) -> bool {
        v is U64
    }

    open spec fn holds_as(v: Value, out: u64) -> bool {
        v == Value::U64(out)
    }

    fn from_types(t: &Types) -> (res: Result<u64, TypeMismatch>) {
        match t {
            Types::U64(s) => Ok(*s),
            _ => Err(TypeMismatch),
        }
    }
}

impl FromTypes for Vec<u64> {
    open spec fn readable(v: Value) -> bool {
        v is Array && forall|i: int|
            0 <= i < v->Array_0.len() ==> (#[trigger] v->Array_0[i]).value is U64
    }

    open spec fn holds_as(v: Value, out: Vec<u64>) -> bool {
        v is Array && out@.len() == v->Array_0.len() && forall|i: int|
            0 <= i < out@.len() ==> (#[trigger] v->Array_0[i]).value == Value::U64(out@[i])
    }

    fn from_types(t: &Types) -> (res: Result<Vec<u64>, TypeMismatch>) {
        match t {
            Types::Array(items) => {
                proof {
                    lemma_array_value(*items);
                }
                let mut out: Vec<u64> = Vec::new();
                let mut i: usize = 0;
                while i < items.len()
                    invariant
                        i <= items.len(),
                        out.len() == i,
                        t@ == Value::Array(cells_of(items@)),
                        forall|k: int|
                            0 <= k < i ==> (#[trigger] cells_of(items@)[k]).value == Value::U64(
                                out@[k],
                            ),
                    decreases items.len() - i,
                {
                    match &items[i].rtype {
                        Types::U64(s) => {
                            out.push(*s);
                        },
                        _ => {
                            assert(!(t@->Array_0[i as int].value is U64));
                            return Err(TypeMismatch);
                        },
                    }
                    i = i + 1;
                }
                Ok(out)
            },
            _ => Err(TypeMismatch),
        }
    }
}

impl From<u64> for Types {
    fn from(v: u64) -> (res: Types) {
        Types::U64(v)
    }
}

impl vstd::std_specs::convert::FromSpecImpl<u64> for Types {
    open spec fn obeys_from_spec() -> bool {
        true
    }

    open spec fn from_spec(v: u64) -> Types {
        Types::U64(v)
    }
}

impl From<u64> for SafeType {
    fn from(v: u64) -> (res: SafeType) {
        SafeType { type_id: TypeDefs::U64, rtype: Types::U64(v) }
    }
}

impl vstd::std_specs::convert::FromSpecImpl<u64> for SafeType {
    open spec fn obeys_from_spec() -> bool {
        true
    }

    open spec fn from_spec(v: u64) -> SafeType {
        SafeType { type_id: TypeDefs::U64, rtype: Types::U64(v) }
    }
}

impl FromTypes for bool {
    open spec fn readable(v: Value) -> bool {
        v is Bool
    }

    open spec fn holds_as(v: Value, out: bool) -> bool {
        v == Value::Bool(out)
    }

    fn from_types(t: &Types) -> (res: Result<bool, TypeMismatch>) {
        match t {
            Types::Bool(s) => Ok(*s),
            _ => Err(TypeMismatch),
        }
    }
}

impl FromTypes for Vec<bool> {
    open spec fn readable(v: Value) -> bool {
        v is Array && forall|i: int|
            0 <= i < v->Array_0.len() ==> (#[trigger] v->Array_0[i]).value is Bool
    }

    open spec fn holds_as(v: Value, out: Vec<bool>) -> bool {
        v is Array && out@.len() == v->Array_0.len() && forall|i: int|
            0 <= i < out@.len() ==> (#[trigger] v->Array_0[i]).value == Value::Bool(out@[i])
    }

    fn from_types(t: &Types) -> (res: Result<Vec<bool>, TypeMismatch>) {
        match t {
            Types::Array(items) => {
                proof {
                    lemma_array_value(*items);
                }
                let mut out: Vec<bool> = Vec::new();
                let mut i: usize = 0;
                while i < items.len()
                    invariant
                        i <= items.len(),
                        out.len() == i,
                        t@ == Value::Array(cells_of(items@)),
                        forall|k: int|
                            0 <= k < i ==> (#[trigger] cells_of(items@)[k]).value == Value::Bool(
                                out@[k],
                            ),
                    decreases items.len() - i,
                {
                    match &items[i].rtype {
                        Types::Bool(s) => {
                            out.push(*s);
                        },
                        _ => {
                            assert(!(t@->Array_0[i as int].value is Bool));
                            return Err(TypeMismatch);
                        },
                    }
                    i = i + 1;
                }
                Ok(out)
            },
            _ => Err(TypeMismatch),
        }
    }
}

impl From<bool> for Types {
    fn from(v: bool) -> (res: Types) {
        Types::Bool(v)
    }
}

impl vstd::std_specs::convert::FromSpecImpl<bool> for Types {
    open spec fn obeys_from_spec() -> bool {
        true
    }

    open spec fn from_spec(v: bool) -> Types {
        Types::Bool(v)
    }
}

impl From<bool> for SafeType {
    fn from(v: bool) -> (res: SafeType) {
        SafeType { type_id: TypeDefs::Bool, rtype: Types::Bool(v) }
    }
}

impl vstd::std_specs::convert::FromSpecImpl<bool> for SafeType {
    open spec fn obeys_from_spec() -> bool {
        true
    }

    open spec fn from_spec(v: bool) -> SafeType {
        SafeType { type_id: TypeDefs::Bool, rtype: Types::Bool(v) }
    }
}

impl From<Vec<SafeType>> for Types {
    fn from(v: Vec<SafeType>) -> (res: Types) {
        Types::Array(v)
    }
}

impl vstd::std_specs::convert::FromSpecImpl<Vec<SafeType>> for Types {
    open spec fn obeys_from_spec() -> bool {
        true
    }

    open spec fn from_spec(v: Vec<SafeType>) -> Types {
        Types::Array(v)
    }
}

/// Whether `c` is an array of `n` items that is declared to hold items of
/// type `inner`.
pub open spec fn is_list(c: Cell, inner: TypeDefs, n: nat) -> bool {
    c.type_id == TypeDefs::Array(Box::new(inner)) && c.value is Array && c.value->Array_0.len() == n
}

impl SafeType {
    /// The text `s` as a value.
    pub fn text(s: &str) -> (res: SafeType)
        ensures
            res@ == (Cell { type_id: TypeDefs::String, value: Value::String(s@) }),
    {
        SafeType { type_id: TypeDefs::String, rtype: Types::String(s.to_owned()) }
    }

    /// The texts `v` as an array of text.
    pub fn from_strs(v: Vec<&str>) -> (res: SafeType)
        ensures
            is_list(res@, TypeDefs::String, v@.len()),
            forall|i: int|
                0 <= i < v@.len() ==> #[trigger] res@.value->Array_0[i] == (Cell {
                    type_id: TypeDefs::String,
                    value: Value::String(v@[i]@),
                }),
    {
        let mut items: Vec<SafeType> = Vec::new();
        let mut i: usize = 0;
        while i < v.len()
            invariant
                i <= v.len(),
                items.len() == i,
                forall|k: int|
                    0 <= k < i ==> (#[trigger] items@[k])@ == (Cell {
                        type_id: TypeDefs::String,
                        value: Value::String(v@[k]@),
                    }),
            decreases v.len() - i,
        {
            items.push(SafeType::text(v[i]));
            i = i + 1;
        }
        proof {
            lemma_array_value(items);
        }
        SafeType {
            type_id: TypeDefs::Array(Box::new(TypeDefs::String)),
            rtype: Types::Array(items),
        }
    }

    /// The items of `v` as an array of type `String` items.
    pub fn from_strings(v: Vec<String>) -> (res: SafeType)
        ensures
            is_list(res@, TypeDefs::String, v@.len()),
            forall|i: int|
                0 <= i < v@.len() ==> #[trigger] res@.value->Array_0[i] == (Cell {
                    type_id: TypeDefs::String,
                    value: Value::String(v@[i]@),
                }),
    {
        let mut items: Vec<SafeType> = Vec::new();
        let mut i: usize = 0;
        while i < v.len()
            invariant
                i <= v.len(),
                items.len() == i,
                forall|k: int|
                    0 <= k < i ==> (#[trigger] items@[k])@ == (Cell {
                        type_id: TypeDefs::String,
                        value: Value::String(v@[k]@),
                    }),
            decreases v.len() - i,
        {
            items.push(SafeType::build(Types::String(v[i].clone()), TypeDefs::String));
            i = i + 1;
        }
        proof {
            lemma_array_value(items);
        }
        SafeType {
            type_id: TypeDefs::Array(Box::new(TypeDefs::String)),
            rtype: Types::Array(items),
        }
    }

    /// The items of `v` as an array of type `Char` items.
    pub fn from_chars(v: Vec<char>) -> (res: SafeType)
        ensures
            is_list(res@, TypeDefs::Char, v@.len()),
            forall|i: int|
                0 <= i < v@.len() ==> #[trigger] res@.value->Array_0[i] == (Cell {
                    type_id: TypeDefs::Char,
                    value: Value::Char(v@[i]),
                }),
    {
        let mut items: Vec<SafeType> = Vec::new();
        let mut i: usize = 0;
        while i < v.len()
            invariant
                i <= v.len(),
                items.len() == i,
                forall|k: int|
                    0 <= k < i ==> (#[trigger] items@[k])@ == (Cell {
                        type_id: TypeDefs::Char,
                        value: Value::Char(v@[k]),
                    }),
            decreases v.len() - i,
        {
            items.push(SafeType::build(Types::Char(v[i]), TypeDefs::Char));
            i = i + 1;
        }
        proof {
            lemma_array_value(items);
        }
        SafeType { type_id: TypeDefs::Array(Box::new(TypeDefs::Char)), rtype: Types::Array(items) }
    }

    /// The items of `v` as an array of type `I8` items.
    pub fn from_i8s(v: Vec<i8>) -> (res: SafeType)
        ensures
            is_list(res@, TypeDefs::I8, v@.len()),
            forall|i: int|
                0 <= i < v@.len() ==> #[trigger] res@.value->Array_0[i] == (Cell {
                    type_id: TypeDefs::I8,
                    value: Value::I8(v@[i]),
                }),
    {
        let mut items: Vec<SafeType> = Vec::new();
        let mut i: usize = 0;
        while i < v.len()
            invariant
                i <= v.len(),
                items.len() == i,
                forall|k: int|
                    0 <= k < i ==> (#[trigger] items@[k])@ == (Cell {
                        type_id: TypeDefs::I8,
                        value: Value::I8(v@[k]),
                    }),
            decreases v.len() - i,
        {
            items.push(SafeType::build(Types::I8(v[i]), TypeDefs::I8));
            i = i + 1;
        }
        proof {
            lemma_array_value(items);
        }
        SafeType { type_id: TypeDefs::Array(Box::new(TypeDefs::I8)), rtype: Types::Array(items) }
    }

    /// The items of `v` as an array of type `I64` items.
    pub fn from_i64s(v: Vec<i64>) -> (res: SafeType)
        ensures
            is_list(res@, TypeDefs::I64, v@.len()),
            forall|i: int|
                0 <= i < v@.len() ==> #[trigger] res@.value->Array_0[i] == (Cell {
                    type_id: TypeDefs::I64,
                    value: Value::I64(v@[i]),
                }),
    {
        let mut items: Vec<SafeType> = Vec::new();
        let mut i: usize = 0;
        while i < v.len()
            invariant
                i <= v.len(),
                items.len() == i,
                forall|k: int|
                    0 <= k < i ==> (#[trigger] items@[k])@ == (Cell {
                        type_id: TypeDefs::I64,
                        value: Value::I64(v@[k]),
                    }),
            decreases v.len() - i,
        {
            items.push(SafeType::build(Types::I64(v[i]), TypeDefs::I64));
            i = i + 1;
        }
        proof {
            lemma_array_value(items);
        }
        SafeType { type_id: TypeDefs::Array(Box::new(TypeDefs::I64)), rtype: Types::Array(items) }
    }

    /// The items of `v` as an array of type `U64` items.
    pub fn from_u64s(v: Vec<u64>) -> (res: SafeType)
        ensures
            is_list(res@, TypeDefs::U64, v@.len()),
            forall|i: int|
                0 <= i < v@.len() ==> #[trigger] res@.value->Array_0[i] == (Cell {
                    type_id: TypeDefs::U64,
                    value: Value::U64(v@[i]),
                }),
    {
        let mut items: Vec<SafeType> = Vec::new();
        let mut i: usize = 0;
        while i < v.len()
            invariant
                i <= v.len(),
                items.len() == i,
                forall|k: int|
                    0 <= k < i ==> (#[trigger] items@[k])@ == (Cell {
                        type_id: TypeDefs::U64,
                        value: Value::U64(v@[k]),
                    }),
            decreases v.len() - i,
        {
            items.push(SafeType::build(Types::U64(v[i]), TypeDefs::U64));
            i = i + 1;
        }
        proof {
            lemma_array_value(items);
        }
        SafeType { type_id: TypeDefs::Array(Box::new(TypeDefs::U64)), rtype: Types::Array(items) }
    }

    /// The items of `v` as an array of type `Bool` items.
    pub fn from_bools(v: Vec<bool>) -> (res: SafeType)
        ensures
            is_list(res@, TypeDefs::Bool, v@.len()),
            forall|i: int|
                0 <= i < v@.len() ==> #[trigger] res@.value->Array_0[i] == (Cell {
                    type_id: TypeDefs::Bool,
                    value: Value::Bool(v@[i]),
                }),
    {
        let mut items: Vec<SafeType> = Vec::new();
        let mut i: usize = 0;
        while i < v.len()
            invariant
                i <= v.len(),
                items.len() == i,
                forall|k: int|
                    0 <= k < i ==> (#[trigger] items@[k])@ == (Cell {
                        type_id: TypeDefs::Bool,
                        value: Value::Bool(v@[k]),
                    }),
            decreases v.len() - i,
        {
            items.push(SafeType::build(Types::Bool(v[i]), TypeDefs::Bool));
            i = i + 1;
        }
        proof {
            lemma_array_value(items);
        }
        SafeType { type_id: TypeDefs::Array(Box::new(TypeDefs::Bool)), rtype: Types::Array(items) }
    }

    /// What the value holds, read as `T`.
    pub fn get<T: FromTypes>(&self) -> (res: Result<T, TypeMismatch>)
        ensures
            match res {
                Ok(out) => T::readable(self@.value) && T::holds_as(self@.value, out),
                Err(_) => !T::readable(self@.value),
            },
    {
        T::from_types(&self.rtype)
    }

    /// Whether the two values are declared alike and hold the same.
    pub fn same(&self, other: &SafeType) -> (res: bool)
        ensures
            res == (self@ == other@),
        decreases *self,
    {
        if !self.type_id.same(&other.type_id) {
            return false;
        }
        match (&self.rtype, &other.rtype) {
            (Types::String(a), Types::String(b)) => *a == *b,
            (Types::Char(a), Types::Char(b)) => *a == *b,
            (Types::I8(a), Types::I8(b)) => *a == *b,
            (Types::I64(a), Types::I64(b)) => *a == *b,
            (Types::U64(a), Types::U64(b)) => *a == *b,
            (Types::Bool(a), Types::Bool(b)) => *a == *b,
            (Types::F32(a), Types::F32(b)) => *a == *b,
            (Types::F64(a), Types::F64(b)) => *a == *b,
            (Types::Array(a), Types::Array(b)) => {
                proof {
                    lemma_array_value(*a);
                    lemma_array_value(*b);
                }
                if a.len() != b.len() {
                    assert(cells_of(a@).len() != cells_of(b@).len());
                    return false;
                }
                let mut i: usize = 0;
                while i < a.len()
                    invariant
                        i <= a.len(),
                        a.len() == b.len(),
                        decreases_to!(*self => *a),
                        self.type_id == other.type_id,
                        self@.value == Value::Array(cells_of(a@)),
                        other@.value == Value::Array(cells_of(b@)),
                        forall|k: int| 0 <= k < i ==> cell_of(#[trigger] a@[k]) == cell_of(b@[k]),
                    decreases a.len() - i,
                {
                    assert(decreases_to!(*a => a[i as int]));
                    if !a[i].same(&b[i]) {
                        assert(cells_of(a@)[i as int] != cells_of(b@)[i as int]);
                        return false;
                    }
                    i = i + 1;
                }
                assert(cells_of(a@) =~= cells_of(b@));
                true
            },
            _ => false,
        }
    }
}

impl Types {
    /// Whether this is text.
    pub fn is_string(&self) -> (res: bool)
        ensures
            res == (*self is String),
    {
        match self {
            Types::String(_) => true,
            _ => false,
        }
    }

    /// Whether this is a character.
    pub fn is_char(&self) -> (res: bool)
        ensures
            res == (*self is Char),
    {
        match self {
            Types::Char(_) => true,
            _ => false,
        }
    }

    /// Whether this is a signed 8-bit integer.
    pub fn is_i8(&self) -> (res: bool)
        ensures
            res == (*self is I8),
    {
        match self {
            Types::I8(_) => true,
            _ => false,
        }
    }

    /// Whether this is a signed 64-bit integer.
    pub fn is_i64(&self) -> (res: bool)
        ensures
            res == (*self is I64),
    {
        match self {
            Types::I64(_) => true,
            _ => false,
        }
    }

    /// Whether this is an unsigned 64-bit integer.
    pub fn is_u64(&self) -> (res: bool)
        ensures
            res == (*self is U64),
    {
        match self {
            Types::U64(_) => true,
            _ => false,
        }
    }

    /// Whether this is a truth value.
    pub fn is_bool(&self) -> (res: bool)
        ensures
            res == (*self is Bool),
    {
        match self {
            Types::Bool(_) => true,
            _ => false,
        }
    }

    /// Whether this is a 32-bit float.
    pub fn is_f32(&self) -> (res: bool)
        ensures
            res == (*self is F32),
    {
        match self {
            Types::F32(_) => true,
            _ => false,
        }
    }

    /// Whether this is a 64-bit float.
    pub fn is_f64(&self) -> (res: bool)
        ensures
            res == (*self is F64),
    {
        match self {
            Types::F64(_) => true,
            _ => false,
        }
    }

    /// Whether this is an array.
    pub fn is_array(&self) -> (res: bool)
        ensures
            res == (*self is Array),
    {
        match self {
            Types::Array(_) => true,
            _ => false,
        }
    }

    /// The text, if this is text.
    pub fn to_string(&self) -> (res: Result<String, TypeMismatch>)
        ensures
            match res {
                Ok(out) => self@ == Value::String(out@),
                Err(_) => !(*self is String),
            },
    {
        match self {
            Types::String(s) => Ok(s.clone()),
            _ => Err(TypeMismatch),
        }
    }

    /// The character, if this is a character.
    pub fn to_char(&self) -> (res: Result<char, TypeMismatch>)
        ensures
            match res {
                Ok(out) => *self == Types::Char(out),
                Err(_) => !(*self is Char),
            },
    {
        match self {
            Types::Char(c) => Ok(*c),
            _ => Err(TypeMismatch),
        }
    }

    /// The number, if this is a signed 8-bit integer.
    pub fn to_i8(&self) -> (res: Result<i8, TypeMismatch>)
        ensures
            match res {
                Ok(out) => *self == Types::I8(out),
                Err(_) => !(*self is I8),
            },
    {
        match self {
            Types::I8(n) => Ok(*n),
            _ => Err(TypeMismatch),
        }
    }

    /// The number, if this is a signed 64-bit integer.
    pub fn to_i64(&self) -> (res: Result<i64, TypeMismatch>)
        ensures
            match res {
                Ok(out) => *self == Types::I64(out),
                Err(_) => !(*self is I64),
            },
    {
        match self {
            Types::I64(n) => Ok(*n),
            _ => Err(TypeMismatch),
        }
    }

    /// The number, if this is an unsigned 64-bit integer.
    pub fn to_u64(&self) -> (res: Result<u64, TypeMismatch>)
        ensures
            match res {
                Ok(out) => *self == Types::U64(out),
                Err(_) => !(*self is U64),
            },
    {
        match self {
            Types::U64(n) => Ok(*n),
            _ => Err(TypeMismatch),
        }
    }

    /// The truth value, if this is one.
    pub fn to_bool(&self) -> (res: Result<bool, TypeMismatch>)
        ensures
            match res {
                Ok(out) => *self == Types::Bool(out),
                Err(_) => !(*self is Bool),
            },
    {
        match self {
            Types::Bool(b) => Ok(*b),
            _ => Err(TypeMismatch),
        }
    }

    /// The bit pattern of the number, if this is a 32-bit float.
    pub fn to_f32(&self) -> (res: Result<u32, TypeMismatch>)
        ensures
            match res {
                Ok(out) => *self == Types::F32(out),
                Err(_) => !(*self is F32),
            },
    {
        match self {
            Types::F32(n) => Ok(*n),
            _ => Err(TypeMismatch),
        }
    }

    /// The bit pattern of the number, if this is a 64-bit float.
    pub fn to_f64(&self) -> (res: Result<u64, TypeMismatch>)
        ensures
            match res {
                Ok(out) => *self == Types::F64(out),
                Err(_) => !(*self is F64),
            },
    {
        match self {
            Types::F64(n) => Ok(*n),
            _ => Err(TypeMismatch),
        }
    }
}

} // verus!
