use ptkgenerator::native_helper::{find_holder, ModuleInfo, Process};
use std::cell::Cell;

fn module(name: &str, base: u64, size: u64) -> ModuleInfo {
    ModuleInfo { name: name.to_string(), base, size }
}

fn modules() -> Vec<ModuleInfo> {
    vec![module("game.exe", 0x400000, 0x1000), module("kernel32.dll", 0x7ff000, 0x2000)]
}

#[test]
fn dummy_module() {
    let m = ModuleInfo::new_dummy();
    assert_eq!(m.name, "Dummy");
    assert_eq!(m.base, 0);
    assert_eq!(m.size, 0);
}

#[test]
fn query_finds_module_and_offset() {
    let loads = Cell::new(0);
    let mut p = Process::new(42);
    let r = p.query_module_info_by_addr(0x400010, |pid| {
        assert_eq!(pid, 42);
        loads.set(loads.get() + 1);
        modules()
    });
    assert_eq!(r, Ok(("game.exe".to_string(), 0x10)));
    let r2 = p.query_module_info_by_addr(0x800100, |_| {
        loads.set(loads.get() + 1);
        modules()
    });
    assert_eq!(r2, Ok(("kernel32.dll".to_string(), 0x1100)));
    assert_eq!(loads.get(), 1);
    assert_eq!(p.pid(), 42);
}

#[test]
fn query_end_of_module_is_included() {
    let mut p = Process::new(1);
    let r = p.query_module_info_by_addr(0x401000, |_| modules());
    assert_eq!(r, Ok(("game.exe".to_string(), 0x1000)));
}

#[test]
fn query_unknown_address_fails() {
    let mut p = Process::new(1);
    assert_eq!(p.query_module_info_by_addr(0x10, |_| modules()), Err(()));
    assert_eq!(p.query_module_info_by_addr(0x400001, |_| Vec::new()), Ok(("game.exe".to_string(), 1)));
}

#[test]
fn remembered_module_answers_first() {
    let mut p = Process::new(1);
    let list = vec![module("a", 0x1000, 0x100), module("b", 0x1000, 0x1000)];
    let l2 = vec![module("a", 0x1000, 0x100), module("b", 0x1000, 0x1000)];
    assert_eq!(p.query_module_info_by_addr(0x1800, move |_| list), Ok(("b".to_string(), 0x800)));
    assert_eq!(p.query_module_info_by_addr(0x1010, move |_| l2), Ok(("b".to_string(), 0x10)));
}

#[test]
fn find_holder_takes_first() {
    let list = vec![module("a", 0x1000, 0x100), module("b", 0x1000, 0x1000)];
    assert_eq!(find_holder(&list, 0x1010), Some(0));
    assert_eq!(find_holder(&list, 0x1800), Some(1));
    assert_eq!(find_holder(&list, 0x10), None);
}

#[test]
fn duplicate_copies_module() {
    let m = module("x", 5, 6);
    let d = m.duplicate();
    assert_eq!(d.name, "x");
    assert_eq!((d.base, d.size), (5, 6));
}

#[test]
fn test_process() {
    let m = modules();
    assert_ne!(m.len(), 0);
    let one_module = &m[0];
    let mut p = Process::new(7);
    let r = p.query_module_info_by_addr(one_module.base as usize + 1, |_| modules());
    assert_eq!(r.is_ok(), true);
}

#[test]
fn remembered_module_answers_as_a_fresh_lookup() {
    let mut used = Process::new(3);
    assert!(used.query_module_info_by_addr(0x7ff010, |_| modules()).is_ok());
    for addr in [0x400000usize, 0x400800, 0x401000, 0x7ff000, 0x801000, 0x10] {
        let mut fresh = Process::new(3);
        assert_eq!(
            used.query_module_info_by_addr(addr, |_| modules()),
            fresh.query_module_info_by_addr(addr, |_| modules())
        );
    }
}
