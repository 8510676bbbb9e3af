//! The entity graph of a resource table: pools, packages, types, configurations and values.
use std::collections::BTreeMap;
use vstd::prelude::*;

verus! {

/// The failures that decoding a resource table can report.
#[derive(Debug, Clone, Copy, PartialEq, Eq, Structural)]
pub enum ArscError {
    /// A chunk header that is truncated, inconsistent or of an unknown kind.
    MalformedHeader,
    /// A string pool whose offsets or lengths leave its data region, or whose bytes do not decode.
    StringPoolCorrupt,
    /// A resource table whose offsets leave the chunk, or whose entries are inconsistent.
    ResourceTableCorrupt,
    /// A table-type chunk with no preceding spec chunk for its type.
    OrphanTypeChunk,
    /// A string-typed value that indexes outside the global string pool.
    InvalidStringReference,
}

/// The fixed eight-byte header that starts every chunk.
#[derive(Debug, Clone, Copy, PartialEq, Eq, Structural)]
pub struct Header {
    pub type_flag: TypeFlag,
    pub header_size: u16,
    pub size: u64,
}

/// The kinds of chunk this format knows.
#[allow(non_camel_case_types)]
#[derive(Debug, PartialEq, Eq, Copy, Clone, Structural)]
pub enum TypeFlag {
    RES_NULL_TYPE,
    RES_STRING_POOL_TYPE,
    RES_TABLE_TYPE,
    RES_TABLE_PACKAGE_TYPE,
    RES_TABLE_TYPE_TYPE,
    RES_TABLE_TYPE_SPEC_TYPE,
    RES_TABLE_LIBRARY_TYPE,
}

/// The two-byte tag of each chunk kind.
pub open spec fn flag_bits(f: TypeFlag) -> u16 {
    match f {
        TypeFlag::RES_NULL_TYPE => 0x0000,
        TypeFlag::RES_STRING_POOL_TYPE => 0x0001,
        TypeFlag::RES_TABLE_TYPE => 0x0002,
        TypeFlag::RES_TABLE_PACKAGE_TYPE => 0x0200,
        TypeFlag::RES_TABLE_TYPE_TYPE => 0x0201,
        TypeFlag::RES_TABLE_TYPE_SPEC_TYPE => 0x0202,
        TypeFlag::RES_TABLE_LIBRARY_TYPE => 0x0203,
    }
}

/// The chunk kind whose tag is `bits`, if there is one.
pub open spec fn flag_of(bits: u16) -> Option<TypeFlag> {
    if bits == 0x0000 {
        Some(TypeFlag::RES_NULL_TYPE)
    } else if bits == 0x0001 {
        Some(TypeFlag::RES_STRING_POOL_TYPE)
    } else if bits == 0x0002 {
        Some(TypeFlag::RES_TABLE_TYPE)
    } else if bits == 0x0200 {
        Some(TypeFlag::RES_TABLE_PACKAGE_TYPE)
    } else if bits == 0x0201 {
        Some(TypeFlag::RES_TABLE_TYPE_TYPE)
    } else if bits == 0x0202 {
        Some(TypeFlag::RES_TABLE_TYPE_SPEC_TYPE)
    } else if bits == 0x0203 {
        Some(TypeFlag::RES_TABLE_LIBRARY_TYPE)
    } else {
        None
    }
}

/// Every chunk kind is recovered from its tag, and only its own tag gives it.
pub proof fn lemma_flag_bits_round_trip(f: TypeFlag, bits: u16)
    ensures
        flag_of(flag_bits(f)) == Some(f),
        flag_of(bits) == Some(f) ==> bits == flag_bits(f),
{
}

impl TypeFlag {
    /// The chunk kind for a tag; `None` for a tag this format does not know.
    pub fn from_bits(bits: u16) -> (r: Option<TypeFlag>)
        ensures
            r == flag_of(bits),
    {
        if bits == 0x0000 {
            Some(TypeFlag::RES_NULL_TYPE)
        } else if bits == 0x0001 {
            Some(TypeFlag::RES_STRING_POOL_TYPE)
        } else if bits == 0x0002 {
            Some(TypeFlag::RES_TABLE_TYPE)
        } else if bits == 0x0200 {
            Some(TypeFlag::RES_TABLE_PACKAGE_TYPE)
        } else if bits == 0x0201 {
            Some(TypeFlag::RES_TABLE_TYPE_TYPE)
        } else if bits == 0x0202 {
            Some(TypeFlag::RES_TABLE_TYPE_SPEC_TYPE)
        } else if bits == 0x0203 {
            Some(TypeFlag::RES_TABLE_LIBRARY_TYPE)
        } else {
            None
        }
    }

    /// The tag of this chunk kind.
    pub fn bits(&self) -> (r: u16)
        ensures
            r == flag_bits(*self),
    {
        match self {
            TypeFlag::RES_NULL_TYPE => 0x0000,
            TypeFlag::RES_STRING_POOL_TYPE => 0x0001,
            TypeFlag::RES_TABLE_TYPE => 0x0002,
            TypeFlag::RES_TABLE_PACKAGE_TYPE => 0x0200,
            TypeFlag::RES_TABLE_TYPE_TYPE => 0x0201,
            TypeFlag::RES_TABLE_TYPE_SPEC_TYPE => 0x0202,
            TypeFlag::RES_TABLE_LIBRARY_TYPE => 0x0203,
        }
    }
}

/// The root of a resource table.
#[derive(Debug)]
pub struct Arsc {
    pub packages: Vec<Package>,
    pub global_string_pool: StringPool,
}

/// One package: its id, its name, its two name pools and its types.
#[derive(Debug)]
pub struct Package {
    pub id: u32,
    pub name: String,
    pub type_names: StringPool,
    pub types: Vec<Type>,
    pub key_names: StringPool,
}

/// Bit of `StringPool::flags` that selects UTF-8 storage; without it strings are UTF-16.
pub const UTF8_FLAG: u32 = 0x00000100;

/// An ordered pool of strings that other chunks refer to by position.
#[derive(Debug)]
pub struct StringPool {
    pub strings: Vec<String>,
    pub flags: u32,
}

/// One resource type of a package: `id - 1` is its position in the package's `type_names`.
#[derive(Debug)]
pub struct Type {
    pub id: usize,
    pub specs: Option<Specs>,
    pub configs: Vec<Config>,
}

impl Type {
    /// A type with the given id, no specs and no configurations.
    pub fn with_id(id: usize) -> (r: Type)
        ensures
            r.id == id,
            r.specs is None,
            r.configs@.len() == 0,
    {
        Type { id, specs: None, configs: Vec::new() }
    }
}

/// The resource identities declared for one type; a spec's position is its id.
#[derive(Debug)]
pub struct Specs(Vec<Spec>);

impl View for Specs {
    type V = Seq<Spec>;

    closed spec fn view(&self) -> Seq<Spec> {
        self.0@
    }
}

impl Specs {
    /// Specs holding `v` in order.
    pub fn from_vec(v: Vec<Spec>) -> (r: Specs)
        ensures
            r@ == v@,
    {
        Specs(v)
    }

    /// The specs in order.
    pub fn into_vec(self) -> (r: Vec<Spec>)
        ensures
            r@ == self@,
    {
        self.0
    }

    /// The spec at position `index`.
    pub fn index(&self, index: usize) -> (r: &Spec)
        requires
            index < self@.len(),
        ensures
            *r == self@[index as int],
    {
        &self.0[index]
    }

    /// Points the spec at `spec_index` at the key name `name_index`, leaving the rest alone.
    pub fn set_name_index(&mut self, spec_index: usize, name_index: usize)
        requires
            spec_index < old(self)@.len(),
        ensures
            final(self)@ == old(self)@.update(
                spec_index as int,
                Spec { name_index, ..old(self)@[spec_index as int] },
            ),
    {
        let mut s = self.0[spec_index];
        s.name_index = name_index;
        self.0.set(spec_index, s);
    }

    /// The number of specs.
    pub fn len(&self) -> (r: usize)
        ensures
            r == self@.len(),
    {
        self.0.len()
    }
}

/// One resource identity: visibility flags, its position, and the index of its key name.
#[derive(Debug, Clone, Copy, PartialEq, Eq, Structural)]
pub struct Spec {
    pub flags: u32,
    pub id: usize,
    pub name_index: usize,
}

impl Spec {
    /// A spec with the given flags and id, whose key name is not yet resolved (index 0).
    pub fn new(flags: u32, id: usize) -> (r: Spec)
        ensures
            r == (Spec { flags, id, name_index: 0 }),
    {
        Spec { flags, id, name_index: 0 }
    }
}

/// The resources of one type under one device configuration.
#[derive(Debug)]
pub struct Config {
    pub type_id: usize,
    pub res0: u8,
    pub res1: u16,
    pub entry_count: usize,
    pub id: Vec<u8>,
    pub resources: BTreeMap<usize, ResourceEntry>,
}

/// One resource of a configuration.
#[derive(Debug)]
pub struct ResourceEntry {
    pub flags: u16,
    pub spec_id: usize,
    pub value: ResourceValue,
}

/// A scalar value, or a bag of attribute/value pairs under a parent reference.
#[derive(Debug)]
pub enum ResourceValue {
    Bag { parent: u32, values: Vec<(u32, Value)> },
    Plain(Value),
}

/// A typed scalar; for `TYPE_STRING`, `data_index` is a position in the global string pool.
#[derive(Debug, Clone, Copy, PartialEq, Eq, Structural)]
pub struct Value {
    pub size: u16,
    pub zero: u8,
    pub data_type: u8,
    pub data_index: usize,
}

/// The data type of a value that refers to the global string pool.
pub const TYPE_STRING: u8 = 0x03;

/// What a resource value holds.
pub enum ResourceValueModel {
    Bag { parent: u32, values: Seq<(u32, Value)> },
    Plain(Value),
}

/// What a resource entry holds.
pub struct ResourceEntryModel {
    pub flags: u16,
    pub spec_id: usize,
    pub value: ResourceValueModel,
}

impl View for ResourceValue {
    type V = ResourceValueModel;

    open spec fn view(&self) -> ResourceValueModel {
        match self {
            ResourceValue::Bag { parent, values } => ResourceValueModel::Bag {
                parent: *parent,
                values: values@,
            },
            ResourceValue::Plain(v) => ResourceValueModel::Plain(*v),
        }
    }
}

impl View for ResourceEntry {
    type V = ResourceEntryModel;

    open spec fn view(&self) -> ResourceEntryModel {
        ResourceEntryModel { flags: self.flags, spec_id: self.spec_id, value: self.value@ }
    }
}

/// What a configuration holds.
pub struct ConfigModel {
    pub type_id: usize,
    pub res0: u8,
    pub res1: u16,
    pub entry_count: usize,
    pub id: Seq<u8>,
    pub resources: Map<usize, ResourceEntryModel>,
}

impl View for Config {
    type V = ConfigModel;

    open spec fn view(&self) -> ConfigModel {
        ConfigModel {
            type_id: self.type_id,
            res0: self.res0,
            res1: self.res1,
            entry_count: self.entry_count,
            id: self.id@,
            resources: self.resources@.map_values(|e: ResourceEntry| e@),
        }
    }
}

/// What a type holds.
pub struct TypeModel {
    pub id: usize,
    pub specs: Option<Seq<Spec>>,
    pub configs: Seq<ConfigModel>,
}

impl View for Type {
    type V = TypeModel;

    open spec fn view(&self) -> TypeModel {
        TypeModel {
            id: self.id,
            specs: match &self.specs {
                Some(s) => Some(s@),
                None => None,
            },
            configs: self.configs@.map_values(|c: Config| c@),
        }
    }
}

} // verus!
