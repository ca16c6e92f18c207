//! The database of a project: the loaded memory image, the executable's
//! metadata, the functions found so far and the labelled memory locations,
//! each collection kept in address order with one entry per address.
use vstd::prelude::*;

use crate::function::Function;
use crate::segofs::{spec_key, SegOfs};

verus! {

/// The executable a project is about.
#[derive(Clone, Debug)]
pub struct EXE {
    pub filename: String,
    pub entry_point: SegOfs,
}

/// What is known of a memory location.
#[derive(Clone, Debug)]
pub struct MemoryLocation {
    /// Short name for the memory location.
    pub name: String,
    /// Description of what the memory holds.
    pub desc: String,
    /// Value type as expressed in Rust, e.g. `u32` or `CStr`.
    pub typ: String,
}

/// Labelled memory locations by address, in address order. A vector sorted by
/// address (`entries_sorted`) serves as the ordered map: lookups by address and
/// walks in address order are proved here over `entry_map`, which a map keyed by
/// `SegOfs`, whose order is derived, would leave unproved.
#[derive(Clone, Debug)]
pub struct Memory {
    pub entries: Vec<(SegOfs, MemoryLocation)>,
}

/// The project database.
pub struct DB {
    /// The memory image with the executable loaded.
    pub mem: Vec<u8>,
    pub exe: EXE,
    /// Functions in order of their address, one per address (`fns_sorted`);
    /// as a map by address it is `fn_map`.
    pub functions: Vec<Function>,
    pub memory: Memory,
}

/// Functions ordered by address, each address once.
pub open spec fn fns_sorted(fs: Seq<Function>) -> bool {
    forall|i: int, j: int| 0 <= i < j < fs.len() ==> spec_key(fs[i].ip) < spec_key(fs[j].ip)
}

/// Memory entries ordered by address, each address once.
pub open spec fn entries_sorted(es: Seq<(SegOfs, MemoryLocation)>) -> bool {
    forall|i: int, j: int| 0 <= i < j < es.len() ==> spec_key(es[i].0) < spec_key(es[j].0)
}

/// The functions by address.
pub open spec fn fn_map(fs: Seq<Function>) -> Map<SegOfs, Function> {
    Map::new(
        |a: SegOfs| exists|i: int| 0 <= i < fs.len() && fs[i].ip == a,
        |a: SegOfs| fs[choose|i: int| 0 <= i < fs.len() && fs[i].ip == a],
    )
}

/// In address order, the function at index `i` is the one the map holds for its address.
pub proof fn lemma_fn_map_at(fs: Seq<Function>, i: int)
    requires
        fns_sorted(fs),
        0 <= i < fs.len(),
    ensures
        fn_map(fs).contains_key(fs[i].ip),
        fn_map(fs)[fs[i].ip] == fs[i],
{
    let a = fs[i].ip;
    assert(fn_map(fs).contains_key(a));
    let k = choose|k: int| 0 <= k < fs.len() && fs[k].ip == a;
    if k != i {
        if k < i {
            assert(spec_key(fs[k].ip) < spec_key(fs[i].ip));
        } else {
            assert(spec_key(fs[i].ip) < spec_key(fs[k].ip));
        }
    }
}

/// Whether some memory entry is at `addr`.
pub open spec fn has_entry(es: Seq<(SegOfs, MemoryLocation)>, addr: SegOfs) -> bool {
    exists|i: int| 0 <= i < es.len() && (#[trigger] es[i]).0 == addr
}

impl DB {
    /// The collections are in address order with one entry per address.
    pub open spec fn wf(&self) -> bool {
        fns_sorted(self.functions@) && entries_sorted(self.memory.entries@)
    }

    /// An empty database over `mem` for the executable `exe`.
    pub fn new(mem: Vec<u8>, exe: EXE) -> (r: DB)
        ensures
            r.wf(),
            r.mem@ == mem@,
            r.functions@.len() == 0,
            r.memory.entries@.len() == 0,
    {
        DB { mem, exe, functions: Vec::new(), memory: Memory { entries: Vec::new() } }
    }

    /// The index of the function at `ip`, if there is one.
    pub fn find_function(&self, ip: SegOfs) -> (r: Option<usize>)
        requires
            self.wf(),
        ensures
            match r {
                Some(i) => i < self.functions@.len() && self.functions@[i as int].ip == ip,
                None => forall|i: int| 0 <= i < self.functions@.len() ==> self.functions@[i].ip != ip,
            },
    {
        let mut i: usize = 0;
        while i < self.functions.len()
            invariant
                i <= self.functions@.len(),
                forall|k: int| 0 <= k < i ==> self.functions@[k].ip != ip,
            decreases self.functions@.len() - i,
        {
            if self.functions[i].ip == ip {
                return Some(i);
            }
            i += 1;
        }
        None
    }

    /// Puts `f` at its place in address order, replacing the function at the
    /// same address if there is one; returns its index.
    pub fn insert_function(&mut self, f: Function) -> (r: usize)
        requires
            old(self).wf(),
        ensures
            final(self).wf(),
            r < final(self).functions@.len(),
            final(self).functions@[r as int] == f,
            fn_map(final(self).functions@) == fn_map(old(self).functions@).insert(f.ip, f),
            final(self).mem == old(self).mem,
            final(self).exe == old(self).exe,
            final(self).memory == old(self).memory,
    {
        let key = f.ip.key();
        let ghost fs0 = self.functions@;
        let mut i: usize = 0;
        while i < self.functions.len() && self.functions[i].ip.key() < key
            invariant
                i <= self.functions@.len(),
                self.functions@ == fs0,
                fns_sorted(fs0),
                key == spec_key(f.ip),
                forall|k: int| 0 <= k < i ==> spec_key(#[trigger] fs0[k].ip) < key,
            decreases self.functions@.len() - i,
        {
            i += 1;
        }
        if i < self.functions.len() && self.functions[i].ip == f.ip {
            self.functions.set(i, f);
            proof {
                let fs1 = self.functions@;
                assert forall|x: int, y: int| 0 <= x < y < fs1.len() implies spec_key(fs1[x].ip) < spec_key(fs1[y].ip) by {
                    assert(fs1[x].ip == fs0[x].ip && fs1[y].ip == fs0[y].ip);
                }
                assert forall|a: SegOfs| #[trigger] fn_map(fs1).contains_key(a) <==> fn_map(fs0).insert(f.ip, f).contains_key(a) by {
                    if fn_map(fs1).contains_key(a) {
                        let k = choose|k: int| 0 <= k < fs1.len() && fs1[k].ip == a;
                        assert(fs0[k].ip == a);
                    }
                    if fn_map(fs0).contains_key(a) {
                        let k = choose|k: int| 0 <= k < fs0.len() && fs0[k].ip == a;
                        assert(fs1[k].ip == a);
                    }
                    if a == f.ip {
                        assert(fs1[i as int].ip == a);
                    }
                }
                assert forall|a: SegOfs| #[trigger] fn_map(fs1).contains_key(a) implies fn_map(fs1)[a] == fn_map(fs0).insert(f.ip, f)[a] by {
                    let k = choose|k: int| 0 <= k < fs1.len() && fs1[k].ip == a;
                    lemma_fn_map_at(fs1, k);
                    if a != f.ip {
                        assert(fs0[k] == fs1[k]);
                        lemma_fn_map_at(fs0, k);
                    } else {
                        lemma_fn_map_at(fs1, i as int);
                    }
                }
                assert(fn_map(fs1) =~= fn_map(fs0).insert(f.ip, f));
            }
            return i;
        }
        proof {
            if i < fs0.len() {
                assert(spec_key(fs0[i as int].ip) != key) by {
                    if spec_key(fs0[i as int].ip) == key {
                        crate::segofs::lemma_key_injective(fs0[i as int].ip, f.ip);
                    }
                }
            }
        }
        self.functions.insert(i, f);
        proof {
            let fs1 = self.functions@;
            assert(fs1 =~= fs0.insert(i as int, f));
            assert forall|x: int, y: int| 0 <= x < y < fs1.len() implies spec_key(fs1[x].ip) < spec_key(fs1[y].ip) by {
                if y < i {
                    assert(fs1[x] == fs0[x] && fs1[y] == fs0[y]);
                } else if y == i {
                    assert(fs1[x] == fs0[x]);
                } else if x < i {
                    assert(fs1[x] == fs0[x] && fs1[y] == fs0[y - 1]);
                    assert(spec_key(fs0[i as int].ip) <= spec_key(fs0[y - 1].ip));
                } else if x == i {
                    assert(fs1[y] == fs0[y - 1]);
                    assert(spec_key(fs0[i as int].ip) <= spec_key(fs0[y - 1].ip));
                } else {
                    assert(fs1[x] == fs0[x - 1] && fs1[y] == fs0[y - 1]);
                }
            }
            // no old function is at f's address
            assert forall|k: int| 0 <= k < fs0.len() implies fs0[k].ip != f.ip by {
                if k < i {
                    assert(spec_key(fs0[k].ip) < key);
                } else {
                    assert(spec_key(fs0[i as int].ip) <= spec_key(fs0[k].ip));
                }
            }
            assert forall|a: SegOfs| #[trigger] fn_map(fs1).contains_key(a) <==> fn_map(fs0).insert(f.ip, f).contains_key(a) by {
                if fn_map(fs1).contains_key(a) {
                    let k = choose|k: int| 0 <= k < fs1.len() && fs1[k].ip == a;
                    if k < i {
                        assert(fs0[k].ip == a);
                    } else if k > i {
                        assert(fs0[k - 1].ip == a);
                    }
                }
                if fn_map(fs0).contains_key(a) {
                    let k = choose|k: int| 0 <= k < fs0.len() && fs0[k].ip == a;
                    if k < i {
                        assert(fs1[k].ip == a);
                    } else {
                        assert(fs1[k + 1].ip == a);
                    }
                }
                if a == f.ip {
                    assert(fs1[i as int].ip == a);
                }
            }
            assert forall|a: SegOfs| #[trigger] fn_map(fs1).contains_key(a) implies fn_map(fs1)[a] == fn_map(fs0).insert(f.ip, f)[a] by {
                let k = choose|k: int| 0 <= k < fs1.len() && fs1[k].ip == a;
                lemma_fn_map_at(fs1, k);
                if k < i {
                    assert(fs0[k] == fs1[k]);
                    lemma_fn_map_at(fs0, k);
                } else if k > i {
                    assert(fs0[k - 1] == fs1[k]);
                    lemma_fn_map_at(fs0, k - 1);
                }
            }
            assert(fn_map(fs1) =~= fn_map(fs0).insert(f.ip, f));
        }
        i
    }

    /// Whether some memory entry is at `addr`.
    pub fn has_memory_entry(&self, addr: SegOfs) -> (r: bool)
        ensures
            r == has_entry(self.memory.entries@, addr),
    {
        let mut i: usize = 0;
        while i < self.memory.entries.len()
            invariant
                i <= self.memory.entries@.len(),
                forall|k: int| 0 <= k < i ==> self.memory.entries@[k].0 != addr,
            decreases self.memory.entries@.len() - i,
        {
            if self.memory.entries[i].0 == addr {
                assert(self.memory.entries@[i as int].0 == addr);
                return true;
            }
            i += 1;
        }
        false
    }
}

/// The names of the named functions by address, in address order.
pub open spec fn fn_names(fs: Seq<Function>) -> Seq<(SegOfs, Seq<char>)>
    decreases fs.len(),
{
    if fs.len() == 0 {
        Seq::empty()
    } else {
        let rest = fn_names(fs.drop_last());
        match fs.last().name {
            Some(n) => rest.push((fs.last().ip, n@)),
            None => rest,
        }
    }
}

/// Replacing the function at index `i` by one at the same address replaces it in the map.
pub proof fn lemma_fn_map_update(fs: Seq<Function>, i: int, f: Function)
    requires
        fns_sorted(fs),
        0 <= i < fs.len(),
        f.ip == fs[i].ip,
    ensures
        fns_sorted(fs.update(i, f)),
        fn_map(fs.update(i, f)) == fn_map(fs).insert(f.ip, f),
{
    let fs1 = fs.update(i, f);
    assert forall|x: int, y: int| 0 <= x < y < fs1.len() implies spec_key(fs1[x].ip) < spec_key(fs1[y].ip) by {
        assert(fs1[x].ip == fs[x].ip && fs1[y].ip == fs[y].ip);
    }
    assert forall|a: SegOfs| #[trigger] fn_map(fs1).contains_key(a) <==> fn_map(fs).insert(f.ip, f).contains_key(a) by {
        if fn_map(fs1).contains_key(a) {
            let k = choose|k: int| 0 <= k < fs1.len() && fs1[k].ip == a;
            assert(fs[k].ip == a);
        }
        if fn_map(fs).contains_key(a) {
            let k = choose|k: int| 0 <= k < fs.len() && fs[k].ip == a;
            assert(fs1[k].ip == a);
        }
        if a == f.ip {
            assert(fs1[i].ip == a);
        }
    }
    assert forall|a: SegOfs| #[trigger] fn_map(fs1).contains_key(a) implies fn_map(fs1)[a] == fn_map(fs).insert(f.ip, f)[a] by {
        let k = choose|k: int| 0 <= k < fs1.len() && fs1[k].ip == a;
        lemma_fn_map_at(fs1, k);
        if k != i {
            lemma_fn_map_at(fs, k);
        } else {
            lemma_fn_map_at(fs1, i);
        }
    }
    assert(fn_map(fs1) =~= fn_map(fs).insert(f.ip, f));
}

/// The memory entries by address.
pub open spec fn entry_map(es: Seq<(SegOfs, MemoryLocation)>) -> Map<SegOfs, MemoryLocation> {
    Map::new(
        |a: SegOfs| exists|i: int| 0 <= i < es.len() && es[i].0 == a,
        |a: SegOfs| es[choose|i: int| 0 <= i < es.len() && es[i].0 == a].1,
    )
}

/// In address order, the entry at index `i` is the one the map holds for its address.
pub proof fn lemma_entry_map_at(es: Seq<(SegOfs, MemoryLocation)>, i: int)
    requires
        entries_sorted(es),
        0 <= i < es.len(),
    ensures
        entry_map(es).contains_key(es[i].0),
        entry_map(es)[es[i].0] == es[i].1,
{
    let a = es[i].0;
    assert(entry_map(es).contains_key(a));
    let k = choose|k: int| 0 <= k < es.len() && es[k].0 == a;
    if k != i {
        if k < i {
            assert(spec_key(es[k].0) < spec_key(es[i].0));
        } else {
            assert(spec_key(es[i].0) < spec_key(es[k].0));
        }
    }
}

impl DB {
    /// Labels the memory at `addr`, replacing the entry there if there is one.
    pub fn insert_memory(&mut self, addr: SegOfs, loc: MemoryLocation)
        requires
            old(self).wf(),
        ensures
            final(self).wf(),
            entry_map(final(self).memory.entries@) == entry_map(old(self).memory.entries@).insert(addr, loc),
            final(self).mem == old(self).mem,
            final(self).exe == old(self).exe,
            final(self).functions == old(self).functions,
    {
        let key = addr.key();
        let ghost es0 = self.memory.entries@;
        let mut i: usize = 0;
        while i < self.memory.entries.len() && self.memory.entries[i].0.key() < key
            invariant
                i <= self.memory.entries@.len(),
                self.memory.entries@ == es0,
                entries_sorted(es0),
                key == spec_key(addr),
                forall|k: int| 0 <= k < i ==> spec_key(#[trigger] es0[k].0) < key,
            decreases self.memory.entries@.len() - i,
        {
            i += 1;
        }
        let ghost e = (addr, loc);
        if i < self.memory.entries.len() && self.memory.entries[i].0 == addr {
            self.memory.entries.set(i, (addr, loc));
            proof {
                let es1 = self.memory.entries@;
                assert forall|x: int, y: int| 0 <= x < y < es1.len() implies spec_key(es1[x].0) < spec_key(es1[y].0) by {
                    assert(es1[x].0 == es0[x].0 && es1[y].0 == es0[y].0);
                }
                assert forall|a: SegOfs| #[trigger] entry_map(es1).contains_key(a) <==> entry_map(es0).insert(addr, e.1).contains_key(a) by {
                    if entry_map(es1).contains_key(a) {
                        let k = choose|k: int| 0 <= k < es1.len() && es1[k].0 == a;
                        assert(es0[k].0 == a);
                    }
                    if entry_map(es0).contains_key(a) {
                        let k = choose|k: int| 0 <= k < es0.len() && es0[k].0 == a;
                        assert(es1[k].0 == a);
                    }
                    if a == addr {
                        assert(es1[i as int].0 == a);
                    }
                }
                assert forall|a: SegOfs| #[trigger] entry_map(es1).contains_key(a) implies entry_map(es1)[a] == entry_map(es0).insert(addr, e.1)[a] by {
                    let k = choose|k: int| 0 <= k < es1.len() && es1[k].0 == a;
                    lemma_entry_map_at(es1, k);
                    if a != addr {
                        assert(es0[k] == es1[k]);
                        lemma_entry_map_at(es0, k);
                    } else {
                        lemma_entry_map_at(es1, i as int);
                    }
                }
                assert(entry_map(es1) =~= entry_map(es0).insert(addr, e.1));
            }
            return;
        }
        proof {
            if i < es0.len() {
                assert(spec_key(es0[i as int].0) != key) by {
                    if spec_key(es0[i as int].0) == key {
                        crate::segofs::lemma_key_injective(es0[i as int].0, addr);
                    }
                }
            }
        }
        self.memory.entries.insert(i, (addr, loc));
        proof {
            let es1 = self.memory.entries@;
            assert(es1 =~= es0.insert(i as int, e));
            assert forall|x: int, y: int| 0 <= x < y < es1.len() implies spec_key(es1[x].0) < spec_key(es1[y].0) by {
                if y < i {
                    assert(es1[x] == es0[x] && es1[y] == es0[y]);
                } else if y == i {
                    assert(es1[x] == es0[x]);
                } else if x < i {
                    assert(es1[x] == es0[x] && es1[y] == es0[y - 1]);
                    assert(spec_key(es0[i as int].0) <= spec_key(es0[y - 1].0));
                } else if x == i {
                    assert(es1[y] == es0[y - 1]);
                    assert(spec_key(es0[i as int].0) <= spec_key(es0[y - 1].0));
                } else {
                    assert(es1[x] == es0[x - 1] && es1[y] == es0[y - 1]);
                }
            }
            assert forall|k: int| 0 <= k < es0.len() implies es0[k].0 != addr by {
                if k < i {
                    assert(spec_key(es0[k].0) < key);
                } else {
                    assert(spec_key(es0[i as int].0) <= spec_key(es0[k].0));
                }
            }
            assert forall|a: SegOfs| #[trigger] entry_map(es1).contains_key(a) <==> entry_map(es0).insert(addr, e.1).contains_key(a) by {
                if entry_map(es1).contains_key(a) {
                    let k = choose|k: int| 0 <= k < es1.len() && es1[k].0 == a;
                    if k < i {
                        assert(es0[k].0 == a);
                    } else if k > i {
                        assert(es0[k - 1].0 == a);
                    }
                }
                if entry_map(es0).contains_key(a) {
                    let k = choose|k: int| 0 <= k < es0.len() && es0[k].0 == a;
                    if k < i {
                        assert(es1[k].0 == a);
                    } else {
                        assert(es1[k + 1].0 == a);
                    }
                }
                if a == addr {
                    assert(es1[i as int].0 == a);
                }
            }
            assert forall|a: SegOfs| #[trigger] entry_map(es1).contains_key(a) implies entry_map(es1)[a] == entry_map(es0).insert(addr, e.1)[a] by {
                let k = choose|k: int| 0 <= k < es1.len() && es1[k].0 == a;
                lemma_entry_map_at(es1, k);
                if k < i {
                    assert(es0[k] == es1[k]);
                    lemma_entry_map_at(es0, k);
                } else if k > i {
                    assert(es0[k - 1] == es1[k]);
                    lemma_entry_map_at(es0, k - 1);
                }
            }
            assert(entry_map(es1) =~= entry_map(es0).insert(addr, e.1));
        }
    }
}

} // verus!
