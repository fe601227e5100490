use vstd::prelude::*;

use super::WrenType;

verus! {

/// The kind of a heap object.
#[derive(Clone, Copy, Debug, PartialEq, Eq, Structural)]
pub enum ObjKind {
    Class,
    Closure,
    Fiber,
    Fn,
    Foreign,
    Instance,
    List,
    MapObj,
    Module,
    Range,
    Upvalue,
}

/// A heap object, known by its kind and its identity.
#[derive(Clone, Copy, Debug, PartialEq, Eq, Structural)]
pub struct Obj {
    pub kind: ObjKind,
    pub id: u64,
}

/// A Wren value. A number is held as the bit pattern of its double.
pub enum Value {
    Null,
    Bool(bool),
    Num(u64),
    Str(Vec<u8>),
    Obj(Obj),
}

/// The type the embedding API reports for a value.
pub open spec fn wren_type(v: Value) -> WrenType {
    match v {
        Value::Null => WrenType::Null,
        Value::Bool(_) => WrenType::Bool,
        Value::Num(_) => WrenType::Num,
        Value::Str(_) => WrenType::String,
        Value::Obj(o) => match o.kind {
            ObjKind::Foreign => WrenType::Foreign,
            ObjKind::List => WrenType::List,
            ObjKind::MapObj => WrenType::MapType,
            _ => WrenType::Unknown,
        },
    }
}

/// The embedding API reports an object as foreign only when it is a foreign
/// object, as a list only when it is a list, as a map only when it is a
/// map, and every other object (an instance of a class written in Wren, a
/// class, a closure, a function, ...) as of unknown type; values that are
/// not objects are never reported as any of those.
pub proof fn law_object_types(v: Value)
    ensures
        wren_type(v) == WrenType::Foreign <==> (v matches Value::Obj(o) && o.kind
            == ObjKind::Foreign),
        wren_type(v) == WrenType::List <==> (v matches Value::Obj(o) && o.kind == ObjKind::List),
        wren_type(v) == WrenType::MapType <==> (v matches Value::Obj(o) && o.kind
            == ObjKind::MapObj),
        wren_type(v) == WrenType::Unknown <==> (v matches Value::Obj(o) && o.kind
            != ObjKind::Foreign && o.kind != ObjKind::List && o.kind != ObjKind::MapObj),
        wren_type(v) == WrenType::Null <==> v is Null,
        wren_type(v) == WrenType::Bool <==> v is Bool,
        wren_type(v) == WrenType::Num <==> v is Num,
        wren_type(v) == WrenType::String <==> v is Str,
{
}

/// The type of `v`.
pub fn value_type(v: &Value) -> (t: WrenType)
    ensures
        t == wren_type(*v),
{
    match v {
        Value::Null => WrenType::Null,
        Value::Bool(_) => WrenType::Bool,
        Value::Num(_) => WrenType::Num,
        Value::Str(_) => WrenType::String,
        Value::Obj(o) => match o.kind {
            ObjKind::Foreign => WrenType::Foreign,
            ObjKind::List => WrenType::List,
            ObjKind::MapObj => WrenType::MapType,
            _ => WrenType::Unknown,
        },
    }
}

} // verus!
