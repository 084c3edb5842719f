//! Runtime values and the heap that owns their strings and lists.
//!
//! A [`Value`] is a small copyable word: scalars inline, strings and lists as
//! ids into the [`Heap`]. Heap objects are immutable once allocated, so an id
//! names the same content for as long as the heap lives.

use vstd::prelude::*;

verus! {

/// An interned symbol: a binding name or an output tag.
#[derive(Clone, Copy, Debug, PartialEq, Eq, Hash, Structural)]
pub struct SymbolId(pub u32);

/// A heap string.
#[derive(Clone, Copy, Debug, PartialEq, Eq, Hash, Structural)]
pub struct StringId(pub u32);

/// A heap list.
#[derive(Clone, Copy, Debug, PartialEq, Eq, Hash, Structural)]
pub struct ListId(pub u32);

/// A heap map (a record or a class instance).
#[derive(Clone, Copy, Debug, PartialEq, Eq, Hash, Structural)]
pub struct MapId(pub u32);

/// A mutable cell (a `var` binding), compared by identity.
#[derive(Clone, Copy, Debug, PartialEq, Eq, Hash, Structural)]
pub struct CellId(pub u32);

/// A resource that has not resolved yet.
#[derive(Clone, Copy, Debug, PartialEq, Eq, Hash, Structural)]
pub struct PendingId(pub u32);

/// A runtime value.
#[derive(Clone, Copy, Debug, PartialEq, Eq, Structural)]
pub enum Value {
    Nil,
    Bool(bool),
    Int(i64),
    String(StringId),
    List(ListId),
    Record(MapId),
    Symbol(SymbolId),
    Cell(CellId),
    Pending(PendingId),
}

/// A heap map: its class name, if it is a class instance, and its entries
/// in insertion order.
#[derive(Debug)]
pub struct HeapMap {
    pub class: Option<String>,
    pub entries: Vec<(String, Value)>,
}

/// A heap map as plain values.
pub struct MapView {
    pub class: Option<Seq<char>>,
    pub entries: Seq<(Seq<char>, Value)>,
}

/// The view of a heap map.
pub open spec fn map_view(m: HeapMap) -> MapView {
    MapView {
        class: match m.class {
            Some(c) => Some(c@),
            None => None,
        },
        entries: m.entries@.map_values(|e: (String, Value)| (e.0@, e.1)),
    }
}

/// The heap: every string, list and map a program allocated, and every
/// cell, by id. Strings, lists and maps never change once allocated; a
/// cell's content can be written.
pub struct Heap {
    strings: Vec<String>,
    lists: Vec<Vec<Value>>,
    maps: Vec<HeapMap>,
    cells: Vec<Value>,
}

/// The heap's contents as mathematical values.
pub struct HeapView {
    pub strings: Seq<Seq<char>>,
    pub lists: Seq<Seq<Value>>,
    pub maps: Seq<MapView>,
    pub cells: Seq<Value>,
}

/// Whether `v` only names objects that exist in `h`.
pub open spec fn value_in(v: Value, h: HeapView) -> bool {
    match v {
        Value::String(id) => id.0 < h.strings.len(),
        Value::List(id) => id.0 < h.lists.len(),
        Value::Record(id) => id.0 < h.maps.len(),
        Value::Cell(id) => id.0 < h.cells.len(),
        _ => true,
    }
}

/// Every list element, map entry and cell content names an object that
/// exists.
pub open spec fn heap_closed(h: HeapView) -> bool {
    &&& forall|i: int, j: int|
        0 <= i < h.lists.len() && 0 <= j < h.lists[i].len() ==> value_in(#[trigger] h.lists[i][j], h)
    &&& forall|i: int, j: int|
        0 <= i < h.maps.len() && 0 <= j < h.maps[i].entries.len() ==> value_in(#[trigger] h.maps[i].entries[j].1, h)
    &&& forall|i: int| 0 <= i < h.cells.len() ==> value_in(#[trigger] h.cells[i], h)
}

/// Pushing a string onto a closed heap leaves it closed.
proof fn lemma_closed_grows(h: HeapView, g: HeapView)
    requires
        heap_closed(h),
        g.lists == h.lists,
        g.maps == h.maps,
        g.cells == h.cells,
        h.strings.len() <= g.strings.len(),
    ensures
        heap_closed(g),
{
    assert forall|i: int, j: int|
        0 <= i < g.lists.len() && 0 <= j < g.lists[i].len() implies value_in(#[trigger] g.lists[i][j], g) by {
        assert(value_in(h.lists[i][j], h));
    }
    assert forall|i: int, j: int|
        0 <= i < g.maps.len() && 0 <= j < g.maps[i].entries.len() implies value_in(#[trigger] g.maps[i].entries[j].1, g) by {
        assert(value_in(h.maps[i].entries[j].1, h));
    }
    assert forall|i: int| 0 <= i < g.cells.len() implies value_in(#[trigger] g.cells[i], g) by {
        assert(value_in(h.cells[i], h));
    }
}

impl View for Heap {
    type V = HeapView;

    closed spec fn view(&self) -> HeapView {
        HeapView {
            strings: self.strings@.map_values(|s: String| s@),
            lists: self.lists@.map_values(|l: Vec<Value>| l@),
            maps: self.maps@.map_values(|m: HeapMap| map_view(m)),
            cells: self.cells@,
        }
    }
}

impl Heap {
    /// The heap's well-formedness: it is closed, and its ids fit in `u32`.
    pub open spec fn wf(&self) -> bool {
        &&& heap_closed(self@)
        &&& self@.strings.len() <= u32::MAX
        &&& self@.lists.len() <= u32::MAX
        &&& self@.maps.len() <= u32::MAX
        &&& self@.cells.len() <= u32::MAX
    }

    /// An empty heap.
    pub fn new() -> (h: Heap)
        ensures
            h.wf(),
            h@.strings.len() == 0,
            h@.lists.len() == 0,
            h@.maps.len() == 0,
            h@.cells.len() == 0,
    {
        let h = Heap { strings: Vec::new(), lists: Vec::new(), maps: Vec::new(), cells: Vec::new() };
        proof {
            assert(h@.strings =~= Seq::<Seq<char>>::empty());
            assert(h@.lists =~= Seq::<Seq<Value>>::empty());
            assert(h@.maps =~= Seq::<MapView>::empty());
        }
        h
    }

    /// Allocate a string; its id is the next free one.
    pub fn alloc_string(&mut self, s: String) -> (id: StringId)
        requires
            old(self).wf(),
            old(self)@.strings.len() < u32::MAX,
        ensures
            final(self).wf(),
            id.0 == old(self)@.strings.len(),
            final(self)@ == (HeapView { strings: old(self)@.strings.push(s@), ..old(self)@ }),
    {
        let id = StringId(self.strings.len() as u32);
        let ghost old_view = self@;
        self.strings.push(s);
        proof {
            assert(self@.strings =~= old_view.strings.push(s@));
            assert(self@.lists =~= old_view.lists);
            assert(self@.maps =~= old_view.maps);
            lemma_closed_grows(old_view, self@);
        }
        id
    }

    /// Allocate a list of values that name existing objects.
    pub fn alloc_list(&mut self, items: Vec<Value>) -> (id: ListId)
        requires
            old(self).wf(),
            old(self)@.lists.len() < u32::MAX,
            forall|j: int| 0 <= j < items@.len() ==> value_in(#[trigger] items@[j], old(self)@),
        ensures
            final(self).wf(),
            id.0 == old(self)@.lists.len(),
            final(self)@ == (HeapView { lists: old(self)@.lists.push(items@), ..old(self)@ }),
    {
        let id = ListId(self.lists.len() as u32);
        let ghost old_view = self@;
        let ghost item_view = items@;
        self.lists.push(items);
        proof {
            assert(self@.strings =~= old_view.strings);
            assert(self@.lists =~= old_view.lists.push(item_view));
            assert(self@.maps =~= old_view.maps);
            let g = self@;
            assert forall|i: int, j: int|
                0 <= i < g.lists.len() && 0 <= j < g.lists[i].len() implies value_in(#[trigger] g.lists[i][j], g) by {
                if i < old_view.lists.len() {
                    assert(g.lists[i] == old_view.lists[i]);
                    assert(value_in(old_view.lists[i][j], old_view));
                } else {
                    assert(value_in(item_view[j], old_view));
                }
            }
            assert forall|i: int, j: int|
                0 <= i < g.maps.len() && 0 <= j < g.maps[i].entries.len() implies value_in(#[trigger] g.maps[i].entries[j].1, g) by {
                assert(value_in(old_view.maps[i].entries[j].1, old_view));
            }
            assert forall|i: int| 0 <= i < g.cells.len() implies value_in(#[trigger] g.cells[i], g) by {
                assert(value_in(old_view.cells[i], old_view));
            }
        }
        id
    }

    /// Allocate a map of class `class` with `entries`, whose values name
    /// existing objects.
    pub fn alloc_map(&mut self, class: Option<String>, entries: Vec<(String, Value)>) -> (id: MapId)
        requires
            old(self).wf(),
            old(self)@.maps.len() < u32::MAX,
            forall|j: int| 0 <= j < entries@.len() ==> value_in(#[trigger] entries@[j].1, old(self)@),
        ensures
            final(self).wf(),
            id.0 == old(self)@.maps.len(),
            final(self)@ == (HeapView {
                maps: old(self)@.maps.push(map_view(HeapMap { class, entries })),
                ..old(self)@
            }),
    {
        let id = MapId(self.maps.len() as u32);
        let ghost old_view = self@;
        let m = HeapMap { class, entries };
        let ghost mv = map_view(m);
        self.maps.push(m);
        proof {
            assert(self@.strings =~= old_view.strings);
            assert(self@.lists =~= old_view.lists);
            assert(self@.maps =~= old_view.maps.push(mv));
            let g = self@;
            assert forall|i: int, j: int|
                0 <= i < g.lists.len() && 0 <= j < g.lists[i].len() implies value_in(#[trigger] g.lists[i][j], g) by {
                assert(value_in(old_view.lists[i][j], old_view));
            }
            assert forall|i: int, j: int|
                0 <= i < g.maps.len() && 0 <= j < g.maps[i].entries.len() implies value_in(#[trigger] g.maps[i].entries[j].1, g) by {
                if i < old_view.maps.len() {
                    assert(g.maps[i] == old_view.maps[i]);
                    assert(value_in(old_view.maps[i].entries[j].1, old_view));
                } else {
                    assert(g.maps[i] == mv);
                    assert(value_in(entries@[j].1, old_view));
                }
            }
            assert forall|i: int| 0 <= i < g.cells.len() implies value_in(#[trigger] g.cells[i], g) by {
                assert(value_in(old_view.cells[i], old_view));
            }
        }
        id
    }

    /// Allocate a cell holding `v`.
    pub fn alloc_cell(&mut self, v: Value) -> (id: CellId)
        requires
            old(self).wf(),
            old(self)@.cells.len() < u32::MAX,
            value_in(v, old(self)@),
        ensures
            final(self).wf(),
            id.0 == old(self)@.cells.len(),
            final(self)@ == (HeapView { cells: old(self)@.cells.push(v), ..old(self)@ }),
    {
        let id = CellId(self.cells.len() as u32);
        let ghost old_view = self@;
        self.cells.push(v);
        proof {
            assert(self@.strings =~= old_view.strings);
            assert(self@.lists =~= old_view.lists);
            assert(self@.maps =~= old_view.maps);
            let g = self@;
            assert forall|i: int, j: int|
                0 <= i < g.lists.len() && 0 <= j < g.lists[i].len() implies value_in(#[trigger] g.lists[i][j], g) by {
                assert(value_in(old_view.lists[i][j], old_view));
            }
            assert forall|i: int, j: int|
                0 <= i < g.maps.len() && 0 <= j < g.maps[i].entries.len() implies value_in(#[trigger] g.maps[i].entries[j].1, g) by {
                assert(value_in(old_view.maps[i].entries[j].1, old_view));
            }
            assert forall|i: int| 0 <= i < g.cells.len() implies value_in(#[trigger] g.cells[i], g) by {
                if i < old_view.cells.len() {
                    assert(value_in(old_view.cells[i], old_view));
                }
            }
        }
        id
    }

    /// The content of cell `id`.
    pub fn cell_read(&self, id: CellId) -> (v: Value)
        requires
            id.0 < self@.cells.len(),
        ensures
            v == self@.cells[id.0 as int],
    {
        self.cells[id.0 as usize]
    }

    /// Write `v` into cell `id`.
    pub fn cell_write(&mut self, id: CellId, v: Value)
        requires
            old(self).wf(),
            id.0 < old(self)@.cells.len(),
            value_in(v, old(self)@),
        ensures
            final(self).wf(),
            final(self)@ == (HeapView { cells: old(self)@.cells.update(id.0 as int, v), ..old(self)@ }),
    {
        let ghost old_view = self@;
        self.cells.set(id.0 as usize, v);
        proof {
            assert(self@.strings =~= old_view.strings);
            assert(self@.lists =~= old_view.lists);
            assert(self@.maps =~= old_view.maps);
            let g = self@;
            assert forall|i: int, j: int|
                0 <= i < g.lists.len() && 0 <= j < g.lists[i].len() implies value_in(#[trigger] g.lists[i][j], g) by {
                assert(value_in(old_view.lists[i][j], old_view));
            }
            assert forall|i: int, j: int|
                0 <= i < g.maps.len() && 0 <= j < g.maps[i].entries.len() implies value_in(#[trigger] g.maps[i].entries[j].1, g) by {
                assert(value_in(old_view.maps[i].entries[j].1, old_view));
            }
            assert forall|i: int| 0 <= i < g.cells.len() implies value_in(#[trigger] g.cells[i], g) by {
                if i != id.0 {
                    assert(value_in(old_view.cells[i], old_view));
                }
            }
        }
    }

    /// The entries of map `id`, in insertion order.
    pub fn get_map(&self, id: MapId) -> (e: &[(String, Value)])
        requires
            id.0 < self@.maps.len(),
        ensures
            e@.map_values(|x: (String, Value)| (x.0@, x.1)) == self@.maps[id.0 as int].entries,
    {
        let e = self.maps[id.0 as usize].entries.as_slice();
        proof {
            assert(e@.map_values(|x: (String, Value)| (x.0@, x.1)) =~= self@.maps[id.0 as int].entries);
        }
        e
    }

    /// The class name of map `id`, if it is a class instance.
    pub fn map_class_name(&self, id: MapId) -> (c: Option<&str>)
        requires
            id.0 < self@.maps.len(),
        ensures
            match c {
                Some(s) => self@.maps[id.0 as int].class == Some(s@),
                None => self@.maps[id.0 as int].class is None,
            },
    {
        match &self.maps[id.0 as usize].class {
            Some(c) => Some(c.as_str()),
            None => None,
        }
    }

    /// The text of string `id`.
    pub fn get_string(&self, id: StringId) -> (s: &str)
        requires
            id.0 < self@.strings.len(),
        ensures
            s@ == self@.strings[id.0 as int],
    {
        self.strings[id.0 as usize].as_str()
    }

    /// The elements of list `id`.
    pub fn get_list(&self, id: ListId) -> (l: &[Value])
        requires
            id.0 < self@.lists.len(),
        ensures
            l@ == self@.lists[id.0 as int],
    {
        self.lists[id.0 as usize].as_slice()
    }
}


/// Names are distinct.
pub open spec fn distinct_names(names: Seq<Seq<char>>) -> bool {
    forall|i: int, j: int| 0 <= i < j < names.len() ==> names[i] != names[j]
}

/// The interned symbol names: a symbol's id is its index.
#[derive(Debug)]
pub struct SymbolTable {
    names: Vec<String>,
}

impl SymbolTable {
    /// The names, by id.
    pub closed spec fn names_spec(&self) -> Seq<Seq<char>> {
        self.names@.map_values(|s: String| s@)
    }

    /// Names are distinct and ids fit in `u32`.
    pub open spec fn wf(&self) -> bool {
        &&& distinct_names(self.names_spec())
        &&& self.names_spec().len() <= u32::MAX
    }

    /// An empty table.
    pub fn new() -> (t: SymbolTable)
        ensures
            t.wf(),
            t.names_spec() == Seq::<Seq<char>>::empty(),
    {
        let t = SymbolTable { names: Vec::new() };
        proof {
            assert(t.names_spec() =~= Seq::<Seq<char>>::empty());
        }
        t
    }

    /// The id of `name`, adding it when it is new. Idempotent.
    pub fn intern(&mut self, name: &str) -> (id: SymbolId)
        requires
            old(self).wf(),
            old(self).names_spec().len() < u32::MAX,
        ensures
            final(self).wf(),
            (id.0 as int) < final(self).names_spec().len(),
            final(self).names_spec()[id.0 as int] == name@,
            old(self).names_spec().contains(name@) ==> final(self).names_spec() == old(
                self,
            ).names_spec(),
            !old(self).names_spec().contains(name@) ==> final(self).names_spec() == old(
                self,
            ).names_spec().push(name@),
    {
        let mut i: usize = 0;
        while i < self.names.len()
            invariant
                i <= self.names@.len(),
                self.wf(),
                self.names_spec().len() < u32::MAX,
                self == old(self),
                forall|j: int| 0 <= j < i ==> self.names@[j]@ != name@,
            decreases self.names@.len() - i,
        {
            if crate::text::str_eq(self.names[i].as_str(), name) {
                proof {
                    assert(self.names_spec()[i as int] == name@);
                }
                return SymbolId(i as u32);
            }
            i = i + 1;
        }
        proof {
            assert(!self.names_spec().contains(name@)) by {
                if self.names_spec().contains(name@) {
                    let j = choose|j: int| 0 <= j < self.names_spec().len() && self.names_spec()[j] == name@;
                    assert(self.names@[j]@ == name@);
                }
            }
        }
        let id = SymbolId(self.names.len() as u32);
        let ghost before = self.names_spec();
        self.names.push(crate::text::string_from(name));
        proof {
            assert(self.names_spec() =~= before.push(name@));
        }
        id
    }

    /// The name of symbol `id`.
    pub fn name(&self, id: SymbolId) -> (s: &str)
        requires
            (id.0 as int) < self.names_spec().len(),
        ensures
            s@ == self.names_spec()[id.0 as int],
    {
        self.names[id.0 as usize].as_str()
    }
}

impl Heap {
    /// The id of a heap string holding `s`: an existing one when the text
    /// is already on the heap, else a new one.
    pub fn intern_str(&mut self, s: &str) -> (id: StringId)
        requires
            old(self).wf(),
            old(self)@.strings.len() < u32::MAX,
        ensures
            final(self).wf(),
            (id.0 as int) < final(self)@.strings.len(),
            final(self)@.strings[id.0 as int] == s@,
            final(self)@.lists == old(self)@.lists,
            old(self)@.strings.contains(s@) ==> final(self)@ == old(self)@,
            !old(self)@.strings.contains(s@) ==> final(self)@.strings == old(self)@.strings.push(
                s@,
            ),
    {
        let mut i: usize = 0;
        while i < self.strings.len()
            invariant
                i <= self.strings@.len(),
                self.wf(),
                self@.strings.len() < u32::MAX,
                self == old(self),
                forall|j: int| 0 <= j < i ==> self.strings@[j]@ != s@,
            decreases self.strings@.len() - i,
        {
            if crate::text::str_eq(self.strings[i].as_str(), s) {
                proof {
                    assert(self@.strings[i as int] == s@);
                }
                return StringId(i as u32);
            }
            i = i + 1;
        }
        proof {
            assert(!self@.strings.contains(s@)) by {
                if self@.strings.contains(s@) {
                    let j = choose|j: int| 0 <= j < self@.strings.len() && self@.strings[j] == s@;
                    assert(self.strings@[j]@ == s@);
                }
            }
        }
        self.alloc_string(crate::text::string_from(s))
    }
}


/// The name of a value's type, as error messages spell it.
pub open spec fn kind_name_spec(v: Value) -> Seq<char> {
    match v {
        Value::Nil => "nil"@,
        Value::Bool(_) => "bool"@,
        Value::Int(_) => "int"@,
        Value::String(_) => "string"@,
        Value::List(_) => "list"@,
        Value::Record(_) => "map"@,
        Value::Symbol(_) => "symbol"@,
        Value::Cell(_) => "cell"@,
        Value::Pending(_) => "pending"@,
    }
}

impl Value {
    /// The name of the value's type, as error messages spell it.
    pub fn kind_name(&self) -> (s: &'static str)
        ensures
            s@ == kind_name_spec(*self),
    {
        match self {
            Value::Nil => "nil",
            Value::Bool(_) => "bool",
            Value::Int(_) => "int",
            Value::String(_) => "string",
            Value::List(_) => "list",
            Value::Record(_) => "map",
            Value::Symbol(_) => "symbol",
            Value::Cell(_) => "cell",
            Value::Pending(_) => "pending",
        }
    }
}

} // verus!
