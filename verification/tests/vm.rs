use wren_engine::wren::value::{Obj, ObjKind, Value};
use wren_engine::wren::{
    get_version_number, Configuration, EnsureSlotsError, GetSlotError, HostFn, WrenType, VM,
};

#[test]
fn version_number() {
    assert_eq!(get_version_number(), 4000);
}

#[test]
fn default_configuration_has_nothing_set() {
    let c = Configuration::default();
    assert!(c.error_fn.is_none());
    assert!(c.write_fn.is_none());
    assert!(c.load_module_fn.is_none());
    assert!(c.initial_heap_size.is_none());
    assert!(c.heap_growth_percent.is_none());
}

#[test]
fn slots() {
    let mut vm = VM::new(&Configuration::default());
    assert_eq!(vm.get_slot_count(), 0);
    assert_eq!(vm.ensure_slots(-1), Err(EnsureSlotsError::NegativeSlotCount));
    assert_eq!(vm.get_slot_count(), 0);
    assert_eq!(vm.ensure_slots(3), Ok(()));
    assert_eq!(vm.get_slot_count(), 3);
    assert_eq!(vm.get_slot_type(2), WrenType::Null);
    vm.set_slot(0, Value::Bool(true));
    vm.set_slot(1, Value::Str(b"hi".to_vec()));
    assert_eq!(vm.ensure_slots(2), Ok(()));
    assert_eq!(vm.get_slot_count(), 3);
    assert_eq!(vm.get_slot_bool(0), Ok(true));
    assert_eq!(vm.get_slot_bool(1), Err(GetSlotError::WrongType));
    assert_eq!(vm.get_slot_bool(3), Err(GetSlotError::SlotOutOfRange));
    assert_eq!(vm.get_slot_bool(-1), Err(GetSlotError::SlotOutOfRange));
    assert_eq!(vm.get_slot_bytes(1), Ok((&b"hi"[..], 2)));
    assert_eq!(vm.get_slot_bytes(0), Err(GetSlotError::WrongType));
    assert_eq!(vm.get_slot_bytes(7), Err(GetSlotError::SlotOutOfRange));
    assert_eq!(vm.get_slot_type(0), WrenType::Bool);
    assert_eq!(vm.get_slot_type(1), WrenType::String);
    vm.set_slot(2, Value::Num(0x3ff0_0000_0000_0000));
    assert_eq!(vm.get_slot_type(2), WrenType::Num);
    vm.set_slot(2, Value::Obj(Obj { kind: ObjKind::List, id: 1 }));
    assert_eq!(vm.get_slot_type(2), WrenType::List);
    vm.set_slot(2, Value::Obj(Obj { kind: ObjKind::MapObj, id: 1 }));
    assert_eq!(vm.get_slot_type(2), WrenType::MapType);
    vm.set_slot(2, Value::Obj(Obj { kind: ObjKind::Foreign, id: 1 }));
    assert_eq!(vm.get_slot_type(2), WrenType::Foreign);
    vm.set_slot(2, Value::Obj(Obj { kind: ObjKind::Closure, id: 1 }));
    assert_eq!(vm.get_slot_type(2), WrenType::Unknown);
    assert_eq!(vm.get_slot_bool(0), Ok(true));
}

#[test]
fn call_handles() {
    let mut vm = VM::new(&Configuration {
        error_fn: Some(HostFn { id: 1 }),
        initial_heap_size: Some(1024),
        ..Configuration::default()
    });
    let h0 = vm.make_call_handle(b"call(_,_)");
    assert_eq!((h0.id, h0.method, h0.num_params), (0, 0, 2));
    let h1 = vm.make_call_handle(b"[_,_]=(_)");
    assert_eq!((h1.id, h1.method, h1.num_params), (1, 1, 3));
    let h2 = vm.make_call_handle(b"count");
    assert_eq!((h2.id, h2.method, h2.num_params), (2, 2, 0));
    let h3 = vm.make_call_handle(b"call(_,_)");
    assert_eq!((h3.id, h3.method, h3.num_params), (3, 0, 2));
    let h4 = vm.make_call_handle(b"[_]");
    assert_eq!(h4.num_params, 1);
    vm.release_handle(&h1);
    vm.release_handle(&h1);
    vm.release_handle(&h0);
}

#[test]
fn temporary_roots() {
    let mut vm = VM::new(&Configuration::default());
    for i in 0..8 {
        vm.push_root(&Obj { kind: ObjKind::Fn, id: i });
    }
    for _ in 0..8 {
        vm.pop_root();
    }
    vm.push_root(&Obj { kind: ObjKind::Closure, id: 9 });
    vm.pop_root();
}
