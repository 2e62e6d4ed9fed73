//! The modules loaded in the traced process, and which of them holds an address.
use vstd::prelude::*;

verus! {

/// One module loaded in a process: its name and the range of addresses it spans.
pub struct ModuleInfo {
    pub name: String,
    pub base: u64,
    pub size: u64,
}

impl ModuleInfo {
    /// A placeholder module named "Dummy" at address 0 with size 0.
    pub fn new_dummy() -> (m: ModuleInfo)
        ensures
            m.name@ == "Dummy"@,
            m.base == 0,
            m.size == 0,
    {
        ModuleInfo { name: String::from_str("Dummy"), base: 0, size: 0 }
    }

    /// A copy of this module's information.
    pub fn duplicate(&self) -> (m: ModuleInfo)
        ensures
            m == *self,
    {
        ModuleInfo { name: self.name.clone(), base: self.base, size: self.size }
    }
}

/// Whether address `addr` lies in `[m.base, m.base + m.size]` (both ends included).
pub open spec fn module_holds(m: ModuleInfo, addr: int) -> bool {
    m.base <= addr <= m.base + m.size
}

/// The position of the first module of `list` that holds `addr`, if any.
pub open spec fn first_holder(list: Seq<ModuleInfo>, addr: int) -> Option<int>
    decreases list.len(),
{
    if list.len() == 0 {
        None
    } else {
        match first_holder(list.drop_last(), addr) {
            Some(i) => Some(i),
            None => if module_holds(list.last(), addr) {
                Some(list.len() - 1)
            } else {
                None
            },
        }
    }
}

/// The answer for `addr` from module `m`: its name and the offset of `addr` in it.
pub open spec fn answer_from(m: ModuleInfo, addr: int) -> Result<(String, usize), ()> {
    Ok((m.name, (addr - m.base) as usize))
}

/// Whether `m` holds `addr`, computed without overflow.
pub fn holds(m: &ModuleInfo, addr: usize) -> (r: bool)
    ensures
        r == module_holds(*m, addr as int),
{
    let a: u64 = addr as u64;
    a >= m.base && a - m.base <= m.size
}

/// What `first_holder` finds: the lowest index of a module that holds `addr`.
pub proof fn lemma_first_holder(list: Seq<ModuleInfo>, addr: int)
    ensures
        match first_holder(list, addr) {
            Some(i) => 0 <= i < list.len() && module_holds(list[i], addr) && forall|j: int|
                0 <= j < i ==> !module_holds(#[trigger] list[j], addr),
            None => forall|j: int| 0 <= j < list.len() ==> !module_holds(#[trigger] list[j], addr),
        },
    decreases list.len(),
{
    if list.len() > 0 {
        lemma_first_holder(list.drop_last(), addr);
        assert forall|j: int| 0 <= j < list.len() - 1 implies #[trigger] list[j] == list.drop_last()[j] by {}
    }
}

/// No address lies in two modules of `list` (both ends included).
pub open spec fn modules_disjoint(list: Seq<ModuleInfo>) -> bool {
    forall|i: int, j: int, a: int|
        0 <= i < j < list.len() && #[trigger] module_holds(list[i], a) ==> !#[trigger] module_holds(list[j], a)
}

/// The answer that searching `list` in order gives for `addr`.
pub open spec fn list_answer(list: Seq<ModuleInfo>, addr: int) -> Result<(String, usize), ()> {
    match first_holder(list, addr) {
        Some(i) => answer_from(list[i], addr),
        None => Err(()),
    }
}

/// A remembered module never changes an answer: where no two modules of
/// `list` overlap, a module of `list` that holds `addr` answers as searching
/// `list` does.
pub proof fn lemma_remembered_answer(list: Seq<ModuleInfo>, m: ModuleInfo, addr: int)
    requires
        modules_disjoint(list),
        list.contains(m),
        module_holds(m, addr),
    ensures
        list_answer(list, addr) == answer_from(m, addr),
{
    lemma_first_holder(list, addr);
    let j: int = choose|j: int| 0 <= j < list.len() && list[j] == m;
    match first_holder(list, addr) {
        Some(i) => {
            if i < j {
                assert(module_holds(list[i], addr));
                assert(!module_holds(list[j], addr));
            }
        },
        None => {
            assert(!module_holds(list[j], addr));
        },
    }
}

/// The module list, once loaded, is still the list after a lookup.
pub open spec fn keeps_list(before: Process, after: Process) -> bool {
    before.module_list() is Some ==> after.module_list() == before.module_list()
}

/// The module list is loaded once: along a run of lookups, each starting from
/// the state the one before left, every state from the first that holds the
/// list on holds that same list.
pub proof fn lemma_list_kept(states: Seq<Process>, i: int, j: int)
    requires
        forall|k: int| 0 <= k < states.len() - 1 ==> #[trigger] keeps_list(states[k], states[k + 1]),
        0 <= i <= j < states.len(),
        states[i].module_list() is Some,
    ensures
        states[j].module_list() == states[i].module_list(),
    decreases j - i,
{
    if i < j {
        lemma_list_kept(states, i, j - 1);
        assert(keeps_list(states[j - 1], states[j - 1 + 1]));
    }
}

/// A process whose modules are looked up by address.
pub struct Process {
    pid: usize,
    module_info_cache: Option<ModuleInfo>,
    all_module_info: Option<Vec<ModuleInfo>>,
}

impl Process {
    /// The id of the process.
    pub closed spec fn spec_pid(&self) -> usize {
        self.pid
    }

    /// The module that answered the last successful lookup, if any.
    pub closed spec fn last_module(&self) -> Option<ModuleInfo> {
        self.module_info_cache
    }

    /// The module of the last successful lookup holds `addr`.
    pub open spec fn remembers(&self, addr: int) -> bool {
        self.last_module() matches Some(m) && module_holds(m, addr)
    }

    /// The module list of the process, once it has been loaded.
    pub closed spec fn module_list(&self) -> Option<Seq<ModuleInfo>> {
        match self.all_module_info {
            Some(v) => Some(v@),
            None => None,
        }
    }

    /// The remembered module is one of the loaded list.
    pub open spec fn wf(&self) -> bool {
        self.last_module() matches Some(m) ==> (self.module_list() matches Some(l) && l.contains(m))
    }

    /// A process with no module information yet.
    pub fn new(pid: usize) -> (p: Process)
        ensures
            p.wf(),
            p.spec_pid() == pid,
            p.last_module() is None,
            p.module_list() is None,
    {
        Process { pid: pid, module_info_cache: None, all_module_info: None }
    }

    /// The process id.
    pub fn pid(&self) -> (r: usize)
        ensures
            r == self.spec_pid(),
    {
        self.pid
    }

    /// Finds the module that holds `addr`: returns its name and the offset of
    /// `addr` in it, or `Err(())` if no module holds it. The module of the last
    /// successful lookup is tried first; otherwise the module list is searched
    /// in order, and the first module that holds `addr` answers and is
    /// remembered. The module list is loaded with `load_modules(pid)` the first
    /// time it is needed, and kept: once it is loaded, `load_modules` is never
    /// called again, so it need not be callable then.
    pub fn query_module_info_by_addr<F: FnOnce(usize) -> Vec<ModuleInfo>>(
        &mut self,
        addr: usize,
        load_modules: F,
    ) -> (r: Result<(String, usize), ()>)
        requires
            old(self).module_list() is None ==> call_requires(load_modules, (old(self).spec_pid(),)),
        ensures
            final(self).spec_pid() == old(self).spec_pid(),
            old(self).wf() ==> final(self).wf(),
            keeps_list(*old(self), *final(self)),
            old(self).wf() && final(self).module_list() is Some && modules_disjoint(
                final(self).module_list()->0,
            ) ==> r == list_answer(final(self).module_list()->0, addr as int),
            r is Ok ==> final(self).remembers(addr as int) && r == answer_from(
                final(self).last_module()->0,
                addr as int,
            ),
            old(self).remembers(addr as int) ==> *final(self) == *old(self) && r == answer_from(
                old(self).last_module()->0,
                addr as int,
            ),
            !old(self).remembers(addr as int) ==> ({
                &&& final(self).module_list() matches Some(list)
                &&& (old(self).module_list() matches Some(l) ==> list == l)
                &&& (old(self).module_list() is None ==> exists|v: Vec<ModuleInfo>|
                    call_ensures(load_modules, (old(self).spec_pid(),), v) && v@ == list)
                &&& match first_holder(list, addr as int) {
                    Some(i) => r == answer_from(list[i], addr as int) && final(self).last_module()
                        == Some(list[i]),
                    None => r is Err && final(self).last_module() == old(self).last_module(),
                }
            }),
    {
        if let Some(m) = &self.module_info_cache {
            if holds(m, addr) {
                proof {
                    if self.wf() && modules_disjoint(self.module_list()->0) {
                        lemma_remembered_answer(self.module_list()->0, *m, addr as int);
                    }
                }
                return Ok((m.name.clone(), (addr as u64 - m.base) as usize));
            }
        }
        if self.all_module_info.is_none() {
            let m = load_modules(self.pid);
            let ghost gm = m;
            self.all_module_info = Some(m);
            assert(call_ensures(load_modules, (old(self).spec_pid(),), gm) && gm@ == self.module_list()->0);
        }
        let ghost list = self.module_list()->0;
        proof {
            lemma_first_holder(list, addr as int);
        }
        let hit = match &self.all_module_info {
            Some(m) => match find_holder(m, addr) {
                Some(i) => {
                    assert(m@ == list);
                    Some((m[i].duplicate(), (addr as u64 - m[i].base) as usize))
                },
                None => None,
            },
            None => None,
        };
        match hit {
            Some((found, off)) => {
                let name = found.name.clone();
                self.module_info_cache = Some(found);
                Ok((name, off))
            },
            None => Err(()),
        }
    }
}

/// The position of the first module of `list` that holds `addr`.
pub fn find_holder(list: &Vec<ModuleInfo>, addr: usize) -> (r: Option<usize>)
    ensures
        match first_holder(list@, addr as int) {
            Some(i) => r is Some && r->0 == i,
            None => r is None,
        },
{
    let mut i: usize = 0;
    while i < list.len()
        invariant
            i <= list.len(),
            first_holder(list@.take(i as int), addr as int) is None,
        decreases list.len() - i,
    {
        proof {
            assert(list@.take(i + 1).drop_last() =~= list@.take(i as int));
        }
        if holds(&list[i], addr) {
            proof {
                lemma_first_holder_prefix(list@, addr as int, i as int);
            }
            return Some(i);
        }
        i = i + 1;
    }
    proof {
        assert(list@.take(i as int) =~= list@);
    }
    None
}

/// Where no module before `i` holds `addr` and module `i` does, `i` is the first holder.
proof fn lemma_first_holder_prefix(list: Seq<ModuleInfo>, addr: int, i: int)
    requires
        0 <= i < list.len(),
        first_holder(list.take(i), addr) is None,
        module_holds(list[i], addr),
    ensures
        first_holder(list, addr) == Some(i),
{
    lemma_first_holder(list.take(i), addr);
    lemma_first_holder(list, addr);
    match first_holder(list, addr) {
        Some(k) => {
            if k < i {
                assert(list.take(i)[k] == list[k]);
            }
        },
        None => {},
    }
}

} // verus!
