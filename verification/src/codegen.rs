//! The schema model code generation consumes.
//!
//! A schema compiler emits a JSON collection of type and component
//! definitions; code generation turns it into the strongly typed surface the
//! runtime works against.  This module holds the collection's shape and the
//! name and scalar mappings the generated artifacts are built from; reading
//! the JSON itself and writing the generated source are the embedding
//! program's work.

use vstd::prelude::*;
use vstd::string::StrSliceExecFns;
use vstd::string::StringExecFns;

verus! {

/// One parsed schema file: its type and component definitions.
#[allow(non_snake_case)]
#[derive(Debug)]
pub struct JsonCollection {
    pub typeDefinitions: Vec<TypeDefinition>,
    pub componentDefinitions: Vec<ComponentDefinition>,
}

impl JsonCollection {
    /// An empty collection.
    pub fn new() -> (r: JsonCollection)
        ensures
            r.typeDefinitions@.len() == 0,
            r.componentDefinitions@.len() == 0,
    {
        JsonCollection { typeDefinitions: Vec::new(), componentDefinitions: Vec::new() }
    }

    /// Folds another parsed file into this collection, keeping definition
    /// order; the other collection is drained.
    pub fn append(&mut self, other: JsonCollection)
        ensures
            final(self).typeDefinitions@ == old(self).typeDefinitions@ + other.typeDefinitions@,
            final(self).componentDefinitions@ == old(self).componentDefinitions@
                + other.componentDefinitions@,
    {
        let mut other = other;
        self.typeDefinitions.append(&mut other.typeDefinitions);
        self.componentDefinitions.append(&mut other.componentDefinitions);
    }
}

/// One component: id, names, data type, events, and commands.
#[allow(non_snake_case)]
#[derive(Debug)]
pub struct ComponentDefinition {
    pub id: u32,
    pub name: String,
    pub qualifiedName: String,
    pub dataDefinition: SchemaTypeDefinition,
    pub eventDefinitions: Vec<EventDefinition>,
    pub commandDefinitions: Vec<CommandDefinition>,
}

/// One event of a component.
#[allow(non_snake_case)]
#[derive(Debug)]
pub struct EventDefinition {
    pub name: String,
    pub eventType: SchemaTypeDefinition,
    pub eventIndex: u32,
}

/// One command of a component, with its request and response types.
#[allow(non_snake_case)]
#[derive(Debug)]
pub struct CommandDefinition {
    pub name: String,
    pub requestType: SchemaTypeDefinition,
    pub responseType: SchemaTypeDefinition,
    pub commandIndex: u32,
}

/// One user-defined type with its fields.
#[allow(non_snake_case)]
#[derive(Debug)]
pub struct TypeDefinition {
    pub fieldDefinitions: Vec<FieldDefinition>,
    pub name: String,
    pub qualifiedName: String,
}

/// One field of a type: exactly one of the four kinds is set.
#[allow(non_snake_case)]
#[derive(Debug)]
pub struct FieldDefinition {
    pub name: String,
    pub number: u32,
    pub singularType: Option<SchemaTypeDefinition>,
    pub optionType: Option<OptionTypeDefinition>,
    pub listType: Option<ListTypeDefinition>,
    pub mapType: Option<MapTypeDefinition>,
}

/// A map-typed field's key and value types.
#[allow(non_snake_case)]
#[derive(Debug)]
pub struct MapTypeDefinition {
    pub keyType: SchemaTypeDefinition,
    pub valueType: SchemaTypeDefinition,
}

/// An option-typed field's value type.
#[allow(non_snake_case)]
#[derive(Debug)]
pub struct OptionTypeDefinition {
    pub valueType: SchemaTypeDefinition,
}

/// A list-typed field's value type.
#[allow(non_snake_case)]
#[derive(Debug)]
pub struct ListTypeDefinition {
    pub valueType: SchemaTypeDefinition,
}

/// A reference to a type: a built-in scalar or a user type, by name.
#[allow(non_snake_case)]
#[derive(Debug)]
pub struct SchemaTypeDefinition {
    pub builtInType: Option<String>,
    pub userType: Option<String>,
}

/// The built-in scalar types of the schema language.
#[derive(Clone, Copy, PartialEq, Eq, Structural, Debug)]
pub enum BuiltInType {
    Boolean,
    UInt32,
    UInt64,
    Int32,
    Int64,
    SInt32,
    SInt64,
    Fixed32,
    Fixed64,
    SFixed32,
    SFixed64,
    Float,
    Double,
    String,
    Bytes,
    EntityId,
}

impl BuiltInType {
    /// The built-in type a schema name denotes, if any.
    pub open spec fn spec_from_name(s: Seq<char>) -> Option<BuiltInType> {
        if s == "bool"@ {
            Some(BuiltInType::Boolean)
        } else if s == "uint32"@ {
            Some(BuiltInType::UInt32)
        } else if s == "uint64"@ {
            Some(BuiltInType::UInt64)
        } else if s == "int32"@ {
            Some(BuiltInType::Int32)
        } else if s == "int64"@ {
            Some(BuiltInType::Int64)
        } else if s == "sint32"@ {
            Some(BuiltInType::SInt32)
        } else if s == "sint64"@ {
            Some(BuiltInType::SInt64)
        } else if s == "fixed32"@ {
            Some(BuiltInType::Fixed32)
        } else if s == "fixed64"@ {
            Some(BuiltInType::Fixed64)
        } else if s == "sfixed32"@ {
            Some(BuiltInType::SFixed32)
        } else if s == "sfixed64"@ {
            Some(BuiltInType::SFixed64)
        } else if s == "float"@ {
            Some(BuiltInType::Float)
        } else if s == "double"@ {
            Some(BuiltInType::Double)
        } else if s == "string"@ {
            Some(BuiltInType::String)
        } else if s == "bytes"@ {
            Some(BuiltInType::Bytes)
        } else if s == "EntityId"@ {
            Some(BuiltInType::EntityId)
        } else {
            None
        }
    }

    /// Parses a schema type name; an unknown name is a wiring bug the caller
    /// reports.
    pub fn from_schema_name(s: &String) -> (r: Option<BuiltInType>)
        ensures
            r == BuiltInType::spec_from_name(s@),
    {
        if s.eq(&String::from_str("bool")) {
            Some(BuiltInType::Boolean)
        } else if s.eq(&String::from_str("uint32")) {
            Some(BuiltInType::UInt32)
        } else if s.eq(&String::from_str("uint64")) {
            Some(BuiltInType::UInt64)
        } else if s.eq(&String::from_str("int32")) {
            Some(BuiltInType::Int32)
        } else if s.eq(&String::from_str("int64")) {
            Some(BuiltInType::Int64)
        } else if s.eq(&String::from_str("sint32")) {
            Some(BuiltInType::SInt32)
        } else if s.eq(&String::from_str("sint64")) {
            Some(BuiltInType::SInt64)
        } else if s.eq(&String::from_str("fixed32")) {
            Some(BuiltInType::Fixed32)
        } else if s.eq(&String::from_str("fixed64")) {
            Some(BuiltInType::Fixed64)
        } else if s.eq(&String::from_str("sfixed32")) {
            Some(BuiltInType::SFixed32)
        } else if s.eq(&String::from_str("sfixed64")) {
            Some(BuiltInType::SFixed64)
        } else if s.eq(&String::from_str("float")) {
            Some(BuiltInType::Float)
        } else if s.eq(&String::from_str("double")) {
            Some(BuiltInType::Double)
        } else if s.eq(&String::from_str("string")) {
            Some(BuiltInType::String)
        } else if s.eq(&String::from_str("bytes")) {
            Some(BuiltInType::Bytes)
        } else if s.eq(&String::from_str("EntityId")) {
            Some(BuiltInType::EntityId)
        } else {
            None
        }
    }

    /// The platform type the scalar maps to in generated code.
    pub open spec fn spec_rust_type_name(self) -> Seq<char> {
        match self {
            BuiltInType::Boolean => "bool"@,
            BuiltInType::UInt32 => "u32"@,
            BuiltInType::UInt64 => "u64"@,
            BuiltInType::Int32 => "i32"@,
            BuiltInType::Int64 => "i64"@,
            BuiltInType::SInt32 => "i32"@,
            BuiltInType::SInt64 => "i64"@,
            BuiltInType::Fixed32 => "u32"@,
            BuiltInType::Fixed64 => "u64"@,
            BuiltInType::SFixed32 => "i32"@,
            BuiltInType::SFixed64 => "i64"@,
            BuiltInType::Float => "f32"@,
            BuiltInType::Double => "f64"@,
            BuiltInType::String => "String"@,
            BuiltInType::Bytes => "Vec<u8>"@,
            BuiltInType::EntityId => "EntityId"@,
        }
    }

    /// The platform type the scalar maps to in generated code.
    pub fn rust_type_name(&self) -> (r: &'static str)
        ensures
            r@ == self.spec_rust_type_name(),
    {
        match self {
            BuiltInType::Boolean => "bool",
            BuiltInType::UInt32 => "u32",
            BuiltInType::UInt64 => "u64",
            BuiltInType::Int32 => "i32",
            BuiltInType::Int64 => "i64",
            BuiltInType::SInt32 => "i32",
            BuiltInType::SInt64 => "i64",
            BuiltInType::Fixed32 => "u32",
            BuiltInType::Fixed64 => "u64",
            BuiltInType::SFixed32 => "i32",
            BuiltInType::SFixed64 => "i64",
            BuiltInType::Float => "f32",
            BuiltInType::Double => "f64",
            BuiltInType::String => "String",
            BuiltInType::Bytes => "Vec<u8>",
            BuiltInType::EntityId => "EntityId",
        }
    }

    /// The method-name stem of the fabric's primitive reader and writer for
    /// this scalar.
    pub open spec fn spec_type_method_group(self) -> Seq<char> {
        match self {
            BuiltInType::Boolean => "Boolean"@,
            BuiltInType::UInt32 => "Uint32"@,
            BuiltInType::UInt64 => "Uint64"@,
            BuiltInType::Int32 => "Int32"@,
            BuiltInType::Int64 => "Int64"@,
            BuiltInType::SInt32 => "Sint32"@,
            BuiltInType::SInt64 => "Sint64"@,
            BuiltInType::Fixed32 => "Fixed32"@,
            BuiltInType::Fixed64 => "Fixed64"@,
            BuiltInType::SFixed32 => "Sfixed32"@,
            BuiltInType::SFixed64 => "Sfixed64"@,
            BuiltInType::Float => "Float"@,
            BuiltInType::Double => "Double"@,
            BuiltInType::String => "String"@,
            BuiltInType::Bytes => "BytesVec"@,
            BuiltInType::EntityId => "EntityId"@,
        }
    }

    /// The method-name stem of the fabric's primitive reader and writer for
    /// this scalar.
    pub fn type_method_group(&self) -> (r: &'static str)
        ensures
            r@ == self.spec_type_method_group(),
    {
        match self {
            BuiltInType::Boolean => "Boolean",
            BuiltInType::UInt32 => "Uint32",
            BuiltInType::UInt64 => "Uint64",
            BuiltInType::Int32 => "Int32",
            BuiltInType::Int64 => "Int64",
            BuiltInType::SInt32 => "Sint32",
            BuiltInType::SInt64 => "Sint64",
            BuiltInType::Fixed32 => "Fixed32",
            BuiltInType::Fixed64 => "Fixed64",
            BuiltInType::SFixed32 => "Sfixed32",
            BuiltInType::SFixed64 => "Sfixed64",
            BuiltInType::Float => "Float",
            BuiltInType::Double => "Double",
            BuiltInType::String => "String",
            BuiltInType::Bytes => "BytesVec",
            BuiltInType::EntityId => "EntityId",
        }
    }
}

/// The position of the type definition a qualified name denotes.
pub open spec fn type_index_of(types: Seq<TypeDefinition>, qualified_name: Seq<char>) -> int {
    choose|i: int| 0 <= i < types.len() && types[i].qualifiedName@ == qualified_name
}

/// Whether a qualified name denotes a type of the collection.
pub open spec fn has_type(types: Seq<TypeDefinition>, qualified_name: Seq<char>) -> bool {
    exists|i: int| 0 <= i < types.len() && types[i].qualifiedName@ == qualified_name
}

/// The position of the type definition a qualified name denotes, if any.
fn find_type(types: &Vec<TypeDefinition>, qualified_name: &String) -> (r: Option<usize>)
    ensures
        match r {
            Some(i) => i < types@.len() && types@[i as int].qualifiedName@ == qualified_name@,
            None => !has_type(types@, qualified_name@),
        },
{
    let n = types.len();
    let mut i: usize = 0;
    while i < n
        invariant
            i <= n,
            n == types@.len(),
            forall|j: int| 0 <= j < i ==> (#[trigger] types@[j]).qualifiedName@ != qualified_name@,
        decreases n - i,
    {
        if types[i].qualifiedName.eq(qualified_name) {
            return Some(i);
        }
        i = i + 1;
    }
    None
}

impl crate::schema::Schema {
    /// Links a parsed schema collection into the runtime's registry: each
    /// component's data type is resolved by qualified name, its field count
    /// and event count become the component's shape, and registration keeps
    /// the collection's order.  Refused — a wiring bug the caller reports —
    /// when a component's data type is not a user type of the collection,
    /// two types share a qualified name, or two components share an id.
    pub fn from_collection(collection: &JsonCollection) -> (r: Option<crate::schema::Schema>)
        ensures
            match r {
                Some(s) => {
                    &&& s.wf()
                    &&& s.descs().len() == collection.componentDefinitions@.len()
                    &&& forall|i: int|
                        0 <= i < s.descs().len() ==> {
                            let d = #[trigger] s.descs()[i];
                            let c = collection.componentDefinitions@[i];
                            &&& d.id() == c.id
                            &&& c.dataDefinition.userType is Some
                            &&& has_type(
                                collection.typeDefinitions@,
                                c.dataDefinition.userType->0@,
                            )
                            &&& d.nfields() == collection.typeDefinitions@[type_index_of(
                                collection.typeDefinitions@,
                                c.dataDefinition.userType->0@,
                            )].fieldDefinitions@.len()
                            &&& d.nevents() == c.eventDefinitions@.len()
                        }
                },
                None => true,
            },
    {
        let types = &collection.typeDefinitions;
        let ntypes = types.len();
        let mut a: usize = 0;
        while a < ntypes
            invariant
                a <= ntypes,
                ntypes == types@.len(),
                forall|p: int, q: int|
                    0 <= p < q < ntypes && p < a ==> (#[trigger] types@[p]).qualifiedName@ != (
                    #[trigger] types@[q]).qualifiedName@,
            decreases ntypes - a,
        {
            let mut b: usize = a + 1;
            while b < ntypes
                invariant
                    a < b <= ntypes,
                    ntypes == types@.len(),
                    forall|q: int|
                        a < q < b ==> (#[trigger] types@[q]).qualifiedName@ != types@[
                            a as int
                        ].qualifiedName@,
                decreases ntypes - b,
            {
                if types[a].qualifiedName.eq(&types[b].qualifiedName) {
                    return None;
                }
                b = b + 1;
            }
            a = a + 1;
        }
        let n = collection.componentDefinitions.len();
        let mut descriptors: Vec<crate::schema::ComponentDescriptor> = Vec::new();
        let mut i: usize = 0;
        while i < n
            invariant
                i <= n,
                n == collection.componentDefinitions@.len(),
                ntypes == types@.len(),
                types@ == collection.typeDefinitions@,
                forall|p: int, q: int|
                    0 <= p < q < ntypes ==> (#[trigger] types@[p]).qualifiedName@ != (
                    #[trigger] types@[q]).qualifiedName@,
                descriptors@.len() == i,
                forall|j: int|
                    0 <= j < i ==> {
                        let d = #[trigger] descriptors@[j];
                        let c = collection.componentDefinitions@[j];
                        &&& d.id() == c.id
                        &&& c.dataDefinition.userType is Some
                        &&& has_type(collection.typeDefinitions@, c.dataDefinition.userType->0@)
                        &&& d.nfields() == collection.typeDefinitions@[type_index_of(
                            collection.typeDefinitions@,
                            c.dataDefinition.userType->0@,
                        )].fieldDefinitions@.len()
                        &&& d.nevents() == c.eventDefinitions@.len()
                    },
            decreases n - i,
        {
            let component = &collection.componentDefinitions[i];
            let data_type = match &component.dataDefinition.userType {
                Some(name) => name,
                None => {
                    return None;
                },
            };
            let t = match find_type(types, data_type) {
                Some(t) => t,
                None => {
                    return None;
                },
            };
            proof {
                let want = collection.componentDefinitions@[i as int].dataDefinition.userType->0@;
                assert(types@[t as int].qualifiedName@ == want);
                assert(has_type(types@, want));
                let k = type_index_of(types@, want);
                assert(0 <= k < types@.len() && types@[k].qualifiedName@ == want);
                if k != t as int {
                    if k < t as int {
                        assert(types@[k].qualifiedName@ != types@[t as int].qualifiedName@);
                    } else {
                        assert(types@[t as int].qualifiedName@ != types@[k].qualifiedName@);
                    }
                }
                assert(k == t as int);
            }
            let num_fields = types[t].fieldDefinitions.len();
            let num_events = component.eventDefinitions.len();
            descriptors.push(
                crate::schema::ComponentDescriptor::new(component.id, num_fields, num_events),
            );
            i = i + 1;
        }
        crate::schema::Schema::new(descriptors)
    }
}

/// The upper-case form of an ASCII lower-case letter; anything else is kept.
pub open spec fn upper_ascii(c: char) -> char {
    match c {
        'a' => 'A',
        'b' => 'B',
        'c' => 'C',
        'd' => 'D',
        'e' => 'E',
        'f' => 'F',
        'g' => 'G',
        'h' => 'H',
        'i' => 'I',
        'j' => 'J',
        'k' => 'K',
        'l' => 'L',
        'm' => 'M',
        'n' => 'N',
        'o' => 'O',
        'p' => 'P',
        'q' => 'Q',
        'r' => 'R',
        's' => 'S',
        't' => 'T',
        'u' => 'U',
        'v' => 'V',
        'w' => 'W',
        'x' => 'X',
        'y' => 'Y',
        'z' => 'Z',
        _ => c,
    }
}

/// Whether position `i` of `s` starts a word of a snake-case name: the very
/// start, or right after an underscore.
pub open spec fn word_start(s: Seq<char>, i: int) -> bool {
    i == 0 || s[i - 1] == '_'
}

/// The title-case form of a snake-case name: underscores go, and the first
/// letter of each word comes out upper-case.
pub open spec fn title_cased(s: Seq<char>) -> Seq<char>
    decreases s.len(),
{
    if s.len() == 0 {
        Seq::empty()
    } else {
        title_cased(s.drop_last()) + (if s.last() == '_' {
            Seq::<char>::empty()
        } else if word_start(s, s.len() - 1) {
            seq![upper_ascii(s.last())]
        } else {
            seq![s.last()]
        })
    }
}

/// Turns a snake-case schema name into the title-case name of a generated
/// artifact: underscores go, and each word is capitalised (ASCII letters
/// only, as schema identifiers are).
pub fn snake_to_title_case(snake_case: &String) -> (r: String)
    requires
        snake_case.is_ascii(),
    ensures
        r@ == title_cased(snake_case@),
{
    let s = snake_case.as_str();
    let n = s.unicode_len();
    let mut out = String::new();
    let mut i: usize = 0;
    while i < n
        invariant
            i <= n,
            n == s@.len(),
            s@ == snake_case@,
            s.is_ascii(),
            out@ == title_cased(s@.subrange(0, i as int)),
        decreases n - i,
    {
        let c = s.get_char(i);
        proof {
            assert(s@.subrange(0, i + 1 as int).drop_last() =~= s@.subrange(0, i as int));
            assert(s@.subrange(0, i + 1 as int).last() == s@[i as int]);
        }
        if c == '_' {
            proof {
                assert(out@ =~= title_cased(s@.subrange(0, i + 1 as int)));
            }
        } else {
            let capitalise = if i == 0 {
                true
            } else {
                s.get_char(i - 1) == '_'
            };
            proof {
                assert(capitalise == word_start(s@.subrange(0, i + 1 as int), i as int));
            }
            if capitalise {
                match c {
                    'a' => out.append("A"),
                    'b' => out.append("B"),
                    'c' => out.append("C"),
                    'd' => out.append("D"),
                    'e' => out.append("E"),
                    'f' => out.append("F"),
                    'g' => out.append("G"),
                    'h' => out.append("H"),
                    'i' => out.append("I"),
                    'j' => out.append("J"),
                    'k' => out.append("K"),
                    'l' => out.append("L"),
                    'm' => out.append("M"),
                    'n' => out.append("N"),
                    'o' => out.append("O"),
                    'p' => out.append("P"),
                    'q' => out.append("Q"),
                    'r' => out.append("R"),
                    's' => out.append("S"),
                    't' => out.append("T"),
                    'u' => out.append("U"),
                    'v' => out.append("V"),
                    'w' => out.append("W"),
                    'x' => out.append("X"),
                    'y' => out.append("Y"),
                    'z' => out.append("Z"),
                    _ => out.append(s.substring_ascii(i, i + 1)),
                }
                proof {
                    reveal_strlit("A");
                    reveal_strlit("B");
                    reveal_strlit("C");
                    reveal_strlit("D");
                    reveal_strlit("E");
                    reveal_strlit("F");
                    reveal_strlit("G");
                    reveal_strlit("H");
                    reveal_strlit("I");
                    reveal_strlit("J");
                    reveal_strlit("K");
                    reveal_strlit("L");
                    reveal_strlit("M");
                    reveal_strlit("N");
                    reveal_strlit("O");
                    reveal_strlit("P");
                    reveal_strlit("Q");
                    reveal_strlit("R");
                    reveal_strlit("S");
                    reveal_strlit("T");
                    reveal_strlit("U");
                    reveal_strlit("V");
                    reveal_strlit("W");
                    reveal_strlit("X");
                    reveal_strlit("Y");
                    reveal_strlit("Z");
                    assert(seq![upper_ascii(s@[i as int])] =~= match s@[i as int] {
                        'a' => "A"@,
                        'b' => "B"@,
                        'c' => "C"@,
                        'd' => "D"@,
                        'e' => "E"@,
                        'f' => "F"@,
                        'g' => "G"@,
                        'h' => "H"@,
                        'i' => "I"@,
                        'j' => "J"@,
                        'k' => "K"@,
                        'l' => "L"@,
                        'm' => "M"@,
                        'n' => "N"@,
                        'o' => "O"@,
                        'p' => "P"@,
                        'q' => "Q"@,
                        'r' => "R"@,
                        's' => "S"@,
                        't' => "T"@,
                        'u' => "U"@,
                        'v' => "V"@,
                        'w' => "W"@,
                        'x' => "X"@,
                        'y' => "Y"@,
                        'z' => "Z"@,
                        _ => s@.subrange(i as int, i + 1 as int),
                    });
                    assert(out@ =~= title_cased(s@.subrange(0, i + 1 as int)));
                }
            } else {
                out.append(s.substring_ascii(i, i + 1));
                proof {
                    assert(s@.subrange(i as int, i + 1 as int) =~= seq![s@[i as int]]);
                    assert(out@ =~= title_cased(s@.subrange(0, i + 1 as int)));
                }
            }
        }
        i = i + 1;
    }
    proof {
        assert(s@.subrange(0, n as int) =~= s@);
    }
    out
}

/// The generated-code path of a dotted schema name: each dot becomes a path
/// separator.
pub open spec fn rust_path_of(s: Seq<char>) -> Seq<char>
    decreases s.len(),
{
    if s.len() == 0 {
        Seq::empty()
    } else {
        rust_path_of(s.drop_last()) + (if s.last() == '.' {
            "::"@
        } else {
            seq![s.last()]
        })
    }
}

/// Turns a dotted schema name into the fully qualified path of its generated
/// artifact, rooted in the generated schema namespace.
pub fn to_rust_qualified_name(qualified_name: &String) -> (r: String)
    requires
        qualified_name.is_ascii(),
    ensures
        r@ == "::schema::"@ + rust_path_of(qualified_name@),
{
    let s = qualified_name.as_str();
    let n = s.unicode_len();
    let mut out = String::from_str("::schema::");
    let mut i: usize = 0;
    while i < n
        invariant
            i <= n,
            n == s@.len(),
            s@ == qualified_name@,
            s.is_ascii(),
            out@ == "::schema::"@ + rust_path_of(s@.subrange(0, i as int)),
        decreases n - i,
    {
        let c = s.get_char(i);
        proof {
            assert(s@.subrange(0, i + 1 as int).drop_last() =~= s@.subrange(0, i as int));
            assert(s@.subrange(0, i + 1 as int).last() == s@[i as int]);
        }
        if c == '.' {
            out.append("::");
        } else {
            out.append(s.substring_ascii(i, i + 1));
            proof {
                assert(s@.subrange(i as int, i + 1 as int) =~= seq![s@[i as int]]);
            }
        }
        proof {
            assert(out@ =~= "::schema::"@ + rust_path_of(s@.subrange(0, i + 1 as int)));
        }
        i = i + 1;
    }
    proof {
        assert(s@.subrange(0, n as int) =~= s@);
    }
    out
}

} // verus!
