pub mod compiler;
pub mod laws;
pub mod report;
pub mod utils;
pub mod value;
pub mod vm;

use vstd::prelude::*;

use compiler::copy_bytes;
use value::{value_type, wren_type, Obj, Value};

verus! {

/// The kind of error reported to the host's error callback.
#[derive(Clone, Copy, Debug, PartialEq, Eq, Structural)]
pub enum ErrorType {
    WrenErrorCompile,
    WrenErrorRuntime,
    WrenErrorStackTrace,
}

/// Why interpreting a piece of source failed.
#[derive(Clone, Copy, Debug, PartialEq, Eq, Structural)]
pub enum InterpretError {
    CompileError,
    RuntimeError,
}

/// The type of the value held in an API slot.
#[derive(Clone, Copy, Debug, PartialEq, Eq, Structural)]
pub enum WrenType {
    Bool,
    Num,
    Foreign,
    List,
    MapType,
    Null,
    String,
    Unknown,
}

/// A callback that the embedding application registered; the application
/// knows which function the number stands for.
#[derive(Clone, Copy, Debug, PartialEq, Eq, Structural)]
pub struct HostFn {
    pub id: u32,
}

/// How the embedding application sets up a VM: its callbacks and the heap
/// sizes the collector works with (`None` takes the default).
#[derive(Clone, Copy, Debug)]
pub struct Configuration {
    pub reallocate_fn: Option<HostFn>,
    pub resolve_module_fn: Option<HostFn>,
    pub load_module_fn: Option<HostFn>,
    pub bind_foreign_method_fn: Option<HostFn>,
    pub bind_foreign_class_fn: Option<HostFn>,
    pub write_fn: Option<HostFn>,
    pub error_fn: Option<HostFn>,
    pub initial_heap_size: Option<usize>,
    pub min_heap_size: Option<usize>,
    pub heap_growth_percent: Option<i32>,
}

impl Default for Configuration {
    /// No callbacks and the default heap sizes.
    fn default() -> (c: Self)
        ensures
            c.reallocate_fn is None,
            c.resolve_module_fn is None,
            c.load_module_fn is None,
            c.bind_foreign_method_fn is None,
            c.bind_foreign_class_fn is None,
            c.write_fn is None,
            c.error_fn is None,
            c.initial_heap_size is None,
            c.min_heap_size is None,
            c.heap_growth_percent is None,
    {
        Self {
            reallocate_fn: None,
            resolve_module_fn: None,
            load_module_fn: None,
            bind_foreign_method_fn: None,
            bind_foreign_class_fn: None,
            write_fn: None,
            error_fn: None,
            initial_heap_size: None,
            min_heap_size: None,
            heap_growth_percent: None,
        }
    }
}

/// The heap size at which the first collection happens unless the
/// configuration says otherwise: ten megabytes.
pub const DEFAULT_INITIAL_HEAP_SIZE: usize = 10485760;

/// The most temporary roots that may be pushed at once.
pub const MAX_TEMP_ROOTS: usize = 8;

/// The version of Wren this engine implements, as `major * 1000000 +
/// minor * 1000 + patch`.
pub const WREN_VERSION_NUMBER: i32 = 4000;

/// Why a slot could not be read.
#[derive(Clone, Copy, Debug, PartialEq, Eq, Structural)]
pub enum GetSlotError {
    /// There is no API slot with that index.
    SlotOutOfRange,
    /// The slot holds a value of another type.
    WrongType,
}

/// Why slots could not be made available.
#[derive(Clone, Copy, Debug, PartialEq, Eq, Structural)]
pub enum EnsureSlotsError {
    NegativeSlotCount,
}

/// A handle that lets the application call a method by its signature.
#[derive(Clone, Copy, Debug, PartialEq, Eq, Structural)]
pub struct Handle {
    /// The handle's identity, while it is live.
    pub id: u64,
    /// The method's symbol: its index in the VM's method table.
    pub method: usize,
    /// How many arguments the method takes besides the receiver.
    pub num_params: usize,
}

/// A Wren virtual machine as the embedding API sees it: its configuration,
/// the slots through which values pass to and from the application, the
/// table of method signatures, the live call handles, and the objects
/// held as temporary roots.
pub struct VM {
    pub(crate) config: Configuration,
    pub(crate) api_stack: Option<Vec<Value>>,
    pub(crate) method_names: Vec<Vec<u8>>,
    pub(crate) handles: Vec<u64>,
    pub(crate) next_handle_id: u64,
    pub(crate) temp_roots: Vec<Obj>,
    pub(crate) next_gc: usize,
}

/// The number of `_` parameters from index `i` down to, but not including,
/// the last `(` at or before it, or index `0`.
pub open spec fn params_before(s: Seq<u8>, i: int) -> int
    decreases i,
{
    if i > 0 && s[i] != '(' as u8 {
        (if s[i] == '_' as u8 {
            1int
        } else {
            0int
        }) + params_before(s, i - 1)
    } else {
        0
    }
}

/// The number of `_` parameters from index `i` up to the first `]` or the
/// end.
pub open spec fn params_after(s: Seq<u8>, i: int) -> int
    decreases s.len() - i,
{
    if 0 <= i < s.len() && s[i] != ']' as u8 {
        (if s[i] == '_' as u8 {
            1int
        } else {
            0int
        }) + params_after(s, i + 1)
    } else {
        0
    }
}

/// The number of arguments a method signature such as `call(_,_)` or
/// `[_]=(_)` takes: the `_`s in its trailing parameter list and in its
/// leading subscript.
pub open spec fn signature_params(s: Seq<u8>) -> int {
    (if s[s.len() - 1] == ')' as u8 {
        params_before(s, s.len() - 1)
    } else {
        0
    }) + (if s[0] == '[' as u8 {
        params_after(s, 0)
    } else {
        0
    })
}

/// The API slots after making sure there are at least `n`: the slots
/// there were (none if there were no slots yet), followed by nulls up to `n`.
pub open spec fn slots_after_ensure(slots: Option<Seq<Value>>, n: int) -> Seq<Value> {
    let st = match slots {
        Some(st) => st,
        None => Seq::<Value>::empty(),
    };
    if st.len() >= n {
        st
    } else {
        st + Seq::new((n - st.len()) as nat, |i: int| Value::Null)
    }
}

/// The method table with each signature as a sequence of bytes.
pub open spec fn names_view(names: Seq<Vec<u8>>) -> Seq<Seq<u8>> {
    names.map_values(|v: Vec<u8>| v@)
}

/// The table after making sure it holds `name`: unchanged if it does, and
/// with `name` appended if it does not.
pub open spec fn symbol_table_ensure(table: Seq<Seq<u8>>, name: Seq<u8>) -> Seq<Seq<u8>> {
    if table.contains(name) {
        table
    } else {
        table.push(name)
    }
}

impl VM {
    /// The VM's invariant: the slot count stays an `i32`, at most
    /// `MAX_TEMP_ROOTS` objects are held as roots, and live handles have
    /// identities below the next one.
    pub closed spec fn wf(&self) -> bool {
        &&& self.api_stack matches Some(st) ==> st@.len() <= i32::MAX
        &&& self.temp_roots@.len() <= MAX_TEMP_ROOTS
        &&& forall|i: int| 0 <= i < self.handles@.len() ==> #[trigger] self.handles@[i] < self.next_handle_id
        &&& forall|i: int, j: int|
            0 <= i < j < self.handles@.len() ==> #[trigger] self.handles@[i] < #[trigger] self.handles@[j]
    }

    /// The configuration the VM was made with.
    pub closed spec fn configuration(&self) -> Configuration {
        self.config
    }

    /// The API slots, or `None` before any were made.
    pub closed spec fn slots(&self) -> Option<Seq<Value>> {
        match self.api_stack {
            Some(st) => Some(st@),
            None => None,
        }
    }

    /// The number of API slots.
    pub open spec fn slot_count(&self) -> int {
        match self.slots() {
            Some(st) => st.len() as int,
            None => 0,
        }
    }

    /// The method signatures the VM knows, by symbol.
    pub closed spec fn methods(&self) -> Seq<Seq<u8>> {
        names_view(self.method_names@)
    }

    /// The identities of the live handles.
    pub closed spec fn live_handles(&self) -> Seq<u64> {
        self.handles@
    }

    /// The identity the next handle gets.
    pub closed spec fn next_handle(&self) -> u64 {
        self.next_handle_id
    }

    /// The objects held as temporary roots, last pushed last.
    pub closed spec fn roots(&self) -> Seq<Obj> {
        self.temp_roots@
    }

    /// The heap size at which the next collection happens.
    pub closed spec fn next_collection(&self) -> int {
        self.next_gc as int
    }

    /// The host's error callback, if it registered one.
    pub fn error_fn(&self) -> (f: Option<HostFn>)
        ensures
            f == self.configuration().error_fn,
    {
        self.config.error_fn
    }

    /// A new VM set up by `config`.
    pub fn new(config: &Configuration) -> (vm: Self)
        ensures
            vm.wf(),
            vm.configuration() == *config,
            vm.slots() is None,
            vm.methods() == Seq::<Seq<u8>>::empty(),
            vm.live_handles() == Seq::<u64>::empty(),
            vm.next_handle() == 0,
            vm.roots() == Seq::<Obj>::empty(),
            vm.next_collection() == match config.initial_heap_size {
                Some(n) => n as int,
                None => DEFAULT_INITIAL_HEAP_SIZE as int,
            },
    {
        let next_gc = match config.initial_heap_size {
            Some(n) => n,
            None => DEFAULT_INITIAL_HEAP_SIZE,
        };
        let vm = VM {
            config: *config,
            api_stack: None,
            method_names: Vec::new(),
            handles: Vec::new(),
            next_handle_id: 0,
            temp_roots: Vec::new(),
            next_gc,
        };
        proof {
            assert(names_view(vm.method_names@) =~= Seq::<Seq<u8>>::empty());
        }
        vm
    }

    /// The number of API slots.
    pub fn get_slot_count(&self) -> (n: i32)
        requires
            self.wf(),
        ensures
            n == self.slot_count(),
    {
        match &self.api_stack {
            None => 0,
            Some(st) => st.len() as i32,
        }
    }

    /// Makes sure there are at least `num_slots` API slots; new slots hold
    /// null.
    pub fn ensure_slots(&mut self, num_slots: i32) -> (r: Result<(), EnsureSlotsError>)
        requires
            old(self).wf(),
        ensures
            final(self).wf(),
            num_slots < 0 ==> r == Err::<(), EnsureSlotsError>(EnsureSlotsError::NegativeSlotCount)
                && final(self).slots() == old(self).slots(),
            num_slots >= 0 ==> r is Ok && final(self).slots() == Some(
                slots_after_ensure(old(self).slots(), num_slots as int),
            ),
            final(self).configuration() == old(self).configuration(),
            final(self).methods() == old(self).methods(),
            final(self).live_handles() == old(self).live_handles(),
            final(self).next_handle() == old(self).next_handle(),
            final(self).roots() == old(self).roots(),
            final(self).next_collection() == old(self).next_collection(),
    {
        if num_slots < 0 {
            return Err(EnsureSlotsError::NegativeSlotCount);
        }
        let mut st = match self.api_stack.take() {
            Some(st) => st,
            None => Vec::new(),
        };
        let ghost st0 = st@;
        let target = num_slots as usize;
        while st.len() < target
            invariant
                st0.len() <= st@.len() <= (if st0.len() >= target { st0.len() as int } else { target as int }),
                target <= i32::MAX,
                st@ == st0 + Seq::new((st@.len() - st0.len()) as nat, |i: int| Value::Null),
            decreases target - st.len(),
        {
            st.push(Value::Null);
            assert(st@ =~= st0 + Seq::new((st@.len() - st0.len()) as nat, |i: int| Value::Null));
        }
        proof {
            if st0.len() >= target {
                assert(st@ =~= st0);
            }
        }
        self.api_stack = Some(st);
        Ok(())
    }

    /// The type of the value in `slot`.
    pub fn get_slot_type(&self, slot: i32) -> (t: WrenType)
        requires
            0 <= slot < self.slot_count(),
        ensures
            t == wren_type(self.slots()->0[slot as int]),
    {
        match &self.api_stack {
            Some(st) => value_type(&st[slot as usize]),
            None => WrenType::Unknown,
        }
    }

    /// The boolean in `slot`.
    pub fn get_slot_bool(&self, slot: i32) -> (r: Result<bool, GetSlotError>)
        ensures
            !(0 <= slot < self.slot_count()) ==> r == Err::<bool, GetSlotError>(
                GetSlotError::SlotOutOfRange,
            ),
            0 <= slot < self.slot_count() ==> r == match self.slots()->0[slot as int] {
                Value::Bool(b) => Ok::<bool, GetSlotError>(b),
                _ => Err(GetSlotError::WrongType),
            },
    {
        match &self.api_stack {
            Some(st) => {
                if slot < 0 || slot as usize >= st.len() {
                    return Err(GetSlotError::SlotOutOfRange);
                }
                match &st[slot as usize] {
                    Value::Bool(b) => Ok(*b),
                    _ => Err(GetSlotError::WrongType),
                }
            },
            None => Err(GetSlotError::SlotOutOfRange),
        }
    }

    /// The bytes of the string in `slot`, and their number.
    pub fn get_slot_bytes(&self, slot: i32) -> (r: Result<(&[u8], usize), GetSlotError>)
        ensures
            !(0 <= slot < self.slot_count()) ==> r == Err::<(&[u8], usize), GetSlotError>(
                GetSlotError::SlotOutOfRange,
            ),
            0 <= slot < self.slot_count() ==> match self.slots()->0[slot as int] {
                Value::Str(b) => r matches Ok((bytes, n)) && bytes@ == b@ && n == b@.len(),
                _ => r == Err::<(&[u8], usize), GetSlotError>(GetSlotError::WrongType),
            },
    {
        match &self.api_stack {
            Some(st) => {
                if slot < 0 || slot as usize >= st.len() {
                    return Err(GetSlotError::SlotOutOfRange);
                }
                match &st[slot as usize] {
                    Value::Str(b) => Ok((b.as_slice(), b.len())),
                    _ => Err(GetSlotError::WrongType),
                }
            },
            None => Err(GetSlotError::SlotOutOfRange),
        }
    }

    /// The symbol of `name` in the method table, which gets `name` appended
    /// if it does not hold it yet.
    pub fn method_symbol(&mut self, name: &[u8]) -> (idx: usize)
        requires
            old(self).wf(),
        ensures
            final(self).wf(),
            final(self).methods() == symbol_table_ensure(old(self).methods(), name@),
            idx < final(self).methods().len(),
            final(self).methods()[idx as int] == name@,
            forall|j: int| 0 <= j < idx ==> final(self).methods()[j] != name@,
            final(self).slots() == old(self).slots(),
            final(self).configuration() == old(self).configuration(),
            final(self).live_handles() == old(self).live_handles(),
            final(self).next_handle() == old(self).next_handle(),
            final(self).roots() == old(self).roots(),
            final(self).next_collection() == old(self).next_collection(),
    {
        let ghost t = names_view(self.method_names@);
        let mut i: usize = 0;
        while i < self.method_names.len()
            invariant
                0 <= i <= self.method_names@.len(),
                t == names_view(self.method_names@),
                self.method_names@ == old(self).method_names@,
                self.handles@ == old(self).handles@,
                self.next_handle_id == old(self).next_handle_id,
                self.temp_roots@ == old(self).temp_roots@,
                old(self).wf(),
                self.api_stack == old(self).api_stack,
                self.config == old(self).config,
                self.next_gc == old(self).next_gc,
                forall|j: int| 0 <= j < i ==> t[j] != name@,
            decreases self.method_names@.len() - i,
        {
            if bytes_eq(self.method_names[i].as_slice(), name) {
                proof {
                    assert(t[i as int] == name@);
                    assert(t.contains(name@));
                }
                return i;
            }
            i = i + 1;
        }
        proof {
            assert(!t.contains(name@));
        }
        let copy = copy_bytes(name);
        self.method_names.push(copy);
        proof {
            assert(names_view(self.method_names@) =~= t.push(name@));
        }
        i
    }

    /// Makes a handle for calling the method with `signature`, such as
    /// `call(_,_)`, whose arity it counts from the signature's `_`s.
    pub fn make_call_handle(&mut self, signature: &[u8]) -> (h: Handle)
        requires
            old(self).wf(),
            0 < signature@.len() <= i32::MAX,
            old(self).next_handle() < u64::MAX,
        ensures
            final(self).wf(),
            h.num_params == signature_params(signature@),
            final(self).methods() == symbol_table_ensure(old(self).methods(), signature@),
            h.method < final(self).methods().len(),
            final(self).methods()[h.method as int] == signature@,
            forall|j: int| 0 <= j < h.method ==> final(self).methods()[j] != signature@,
            h.id == old(self).next_handle(),
            final(self).live_handles() == old(self).live_handles().push(h.id),
            final(self).next_handle() == old(self).next_handle() + 1,
            final(self).slots() == old(self).slots(),
            final(self).configuration() == old(self).configuration(),
            final(self).roots() == old(self).roots(),
            final(self).next_collection() == old(self).next_collection(),
    {
        let ghost sig = signature@;
        let len = signature.len();
        let mut num_params: usize = 0;
        if signature[len - 1] == (')' as u8) {
            let mut i = len - 1;
            while i > 0 && signature[i] != ('(' as u8)
                invariant
                    0 <= i < len == sig.len(),
                    sig == signature@,
                    num_params + params_before(sig, i as int) == params_before(sig, len - 1),
                    num_params <= len - 1 - i,
                    len <= i32::MAX,
                decreases i,
            {
                if signature[i] == ('_' as u8) {
                    num_params = num_params + 1;
                }
                i = i - 1;
            }
        }
        let ghost before = num_params;
        if signature[0] == ('[' as u8) {
            let mut i: usize = 0;
            while i < len && signature[i] != (']' as u8)
                invariant
                    0 <= i <= len == sig.len(),
                    sig == signature@,
                    num_params - before + params_after(sig, i as int) == params_after(sig, 0),
                    before <= num_params <= before + i,
                    before <= len,
                    len <= i32::MAX,
                decreases len - i,
            {
                if signature[i] == ('_' as u8) {
                    num_params = num_params + 1;
                }
                i = i + 1;
            }
        }
        let method = self.method_symbol(signature);
        let id = self.next_handle_id;
        self.handles.push(id);
        self.next_handle_id = id + 1;
        Handle { id, method, num_params }
    }

    /// Releases `handle`: it is no longer live.
    pub fn release_handle(&mut self, handle: &Handle)
        requires
            old(self).wf(),
        ensures
            final(self).wf(),
            forall|i: int|
                0 <= i < old(self).live_handles().len() && old(self).live_handles()[i]
                    == handle.id ==> final(self).live_handles() == old(self).live_handles().remove(
                    i,
                ),
            !old(self).live_handles().contains(handle.id) ==> final(self).live_handles()
                == old(self).live_handles(),
            final(self).next_handle() == old(self).next_handle(),
            final(self).slots() == old(self).slots(),
            final(self).methods() == old(self).methods(),
            final(self).configuration() == old(self).configuration(),
            final(self).roots() == old(self).roots(),
            final(self).next_collection() == old(self).next_collection(),
    {
        let mut i: usize = 0;
        while i < self.handles.len()
            invariant
                self.wf(),
                self.handles@ == old(self).handles@,
                self.next_handle_id == old(self).next_handle_id,
                self.temp_roots@ == old(self).temp_roots@,
                self.method_names@ == old(self).method_names@,
                self.api_stack == old(self).api_stack,
                self.config == old(self).config,
                self.next_gc == old(self).next_gc,
                0 <= i <= self.handles@.len(),
                forall|j: int| 0 <= j < i ==> self.handles@[j] != handle.id,
            decreases self.handles@.len() - i,
        {
            if self.handles[i] == handle.id {
                let ghost h0 = self.handles@;
                self.handles.remove(i);
                proof {
                    assert forall|k: int|
                        0 <= k < h0.len() && h0[k] == handle.id implies k == i by {
                        if k < i {
                        } else if k > i {
                            assert(h0[i as int] < h0[k]);
                        }
                    }
                    assert forall|a: int, b: int|
                        0 <= a < b < self.handles@.len() implies #[trigger] self.handles@[a]
                        < #[trigger] self.handles@[b] by {
                        let a0 = if a < i { a } else { a + 1 };
                        let b0 = if b < i { b } else { b + 1 };
                        assert(self.handles@[a] == h0[a0]);
                        assert(self.handles@[b] == h0[b0]);
                        assert(h0[a0] < h0[b0]);
                    }
                    assert forall|a: int|
                        0 <= a < self.handles@.len() implies #[trigger] self.handles@[a]
                        < self.next_handle_id by {
                        let a0 = if a < i { a } else { a + 1 };
                        assert(self.handles@[a] == h0[a0]);
                    }
                }
                return;
            }
            i = i + 1;
        }
    }

    /// Puts `value` in `slot`.
    pub fn set_slot(&mut self, slot: i32, value: Value)
        requires
            old(self).wf(),
            0 <= slot < old(self).slot_count(),
        ensures
            final(self).wf(),
            final(self).slots() == Some(old(self).slots()->0.update(slot as int, value)),
            final(self).configuration() == old(self).configuration(),
            final(self).methods() == old(self).methods(),
            final(self).live_handles() == old(self).live_handles(),
            final(self).next_handle() == old(self).next_handle(),
            final(self).roots() == old(self).roots(),
            final(self).next_collection() == old(self).next_collection(),
    {
        let mut st = match self.api_stack.take() {
            Some(st) => st,
            None => Vec::new(),
        };
        st.set(slot as usize, value);
        self.api_stack = Some(st);
    }
}

/// Whether `a` and `b` hold the same bytes.
pub fn bytes_eq(a: &[u8], b: &[u8]) -> (r: bool)
    ensures
        r == (a@ == b@),
{
    if a.len() != b.len() {
        return false;
    }
    let mut i: usize = 0;
    while i < a.len()
        invariant
            a@.len() == b@.len(),
            0 <= i <= a@.len(),
            forall|j: int| 0 <= j < i ==> a@[j] == b@[j],
        decreases a@.len() - i,
    {
        if a[i] != b[i] {
            return false;
        }
        i = i + 1;
    }
    assert(a@ =~= b@);
    true
}

/// The version of Wren this engine implements.
pub fn get_version_number() -> (v: i32)
    ensures
        v == WREN_VERSION_NUMBER,
{
    WREN_VERSION_NUMBER
}

} // verus!

verus! {

/// Making sure there are `n` slots leaves at least `n`, keeps the values
/// of the slots there were, and fills the new ones with null; asking again
/// changes nothing.
pub proof fn law_ensure_slots_keeps_values(slots: Option<Seq<Value>>, n: int)
    requires
        n >= 0,
    ensures
        ({
            let st = match slots {
                Some(st) => st,
                None => Seq::<Value>::empty(),
            };
            let after = slots_after_ensure(slots, n);
            &&& after.len() == if st.len() >= n {
                st.len() as int
            } else {
                n
            }
            &&& forall|i: int| 0 <= i < st.len() ==> after[i] == st[i]
            &&& forall|i: int| st.len() <= i < after.len() ==> after[i] == Value::Null
            &&& slots_after_ensure(Some(after), n) == after
        }),
{
}

/// A value put in a slot is what the slot then holds, and of the type the
/// slot then reports; the other slots keep theirs.
pub proof fn law_slot_read_after_write(slots: Seq<Value>, i: int, v: Value, j: int)
    requires
        0 <= i < slots.len(),
        0 <= j < slots.len(),
    ensures
        slots.update(i, v)[i] == v,
        wren_type(slots.update(i, v)[i]) == wren_type(v),
        j != i ==> slots.update(i, v)[j] == slots[j],
{
}

/// Adding a signature to the method table twice changes it once: the
/// table then holds the signature, at the same symbol both times.
pub proof fn law_method_symbol_idempotent(table: Seq<Seq<u8>>, name: Seq<u8>)
    ensures
        symbol_table_ensure(symbol_table_ensure(table, name), name) == symbol_table_ensure(
            table,
            name,
        ),
        symbol_table_ensure(table, name).contains(name),
        table.is_prefix_of(symbol_table_ensure(table, name)),
{
    if !table.contains(name) {
        assert(table.push(name)[table.len() as int] == name);
    }
    assert(table.is_prefix_of(symbol_table_ensure(table, name))) by {
        assert(symbol_table_ensure(table, name).subrange(0, table.len() as int) =~= table);
    }
}

/// Releasing the handle just made leaves the live handles as they were.
pub proof fn law_release_undoes_make(live: Seq<u64>, id: u64)
    ensures
        live.push(id).remove(live.len() as int) == live,
{
    assert(live.push(id).remove(live.len() as int) =~= live);
}

} // verus!
