use js_runtime::loader::evaluation_order;
use js_runtime::module_map::{MapError, ModuleMap, ModuleState};
use js_runtime::validator::ScriptValue;

/// Registers `name` and compiles it with the given dependencies.
fn compile(map: &mut ModuleMap, name: &str, deps: &[&str]) -> usize {
    let id = map.get_or_insert(name.to_string());
    assert_eq!(map.mark_state(id, ModuleState::Fetching), Ok(()));
    let deps: Vec<String> = deps.iter().map(|d| d.to_string()).collect();
    assert_eq!(map.set_compiled(id, format!("// {}", name), &deps), Ok(()));
    id
}

fn find(map: &ModuleMap, name: &str) -> usize {
    map.find(&name.to_string()).unwrap()
}

fn names(map: &ModuleMap, order: &[usize]) -> Vec<String> {
    order.iter().map(|&i| map.records[i].identity.clone()).collect()
}

fn evaluate_all(map: &mut ModuleMap, order: &[usize], runs: &mut Vec<String>) {
    for &i in order {
        assert_eq!(map.mark_state(i, ModuleState::Evaluating), Ok(()));
        runs.push(map.records[i].identity.clone());
        map.record_outcome(i, Ok(ScriptValue::Other(format!("done {}", i))));
    }
}

fn diamond() -> ModuleMap {
    let mut map = ModuleMap::new();
    compile(&mut map, "/m/a.js", &["/m/b.js", "/m/c.js"]);
    compile(&mut map, "/m/b.js", &["/m/d.js"]);
    compile(&mut map, "/m/c.js", &["/m/d.js"]);
    compile(&mut map, "/m/d.js", &[]);
    map.link_all();
    map
}

#[test]
fn diamond_evaluates_shared_dependency_once_and_first() {
    let map = diamond();
    let a = find(&map, "/m/a.js");
    let order = evaluation_order(&map, a);
    assert_eq!(names(&map, &order), vec!["/m/d.js", "/m/b.js", "/m/c.js", "/m/a.js"]);
}

#[test]
fn all_modules_linked_after_fetching() {
    let map = diamond();
    for i in 0..map.len() {
        assert_eq!(map.state(i), ModuleState::Linked);
    }
    assert_eq!(map.records[0].deps, vec![1, 2]);
}

#[test]
fn importing_twice_evaluates_once() {
    let mut map = diamond();
    let a = find(&map, "/m/a.js");
    let mut runs = Vec::new();
    let order = evaluation_order(&map, a);
    evaluate_all(&mut map, &order, &mut runs);
    let first = map.outcome(a).clone();
    let again = evaluation_order(&map, a);
    assert!(again.is_empty());
    assert_eq!(runs.len(), 4);
    assert_eq!(map.outcome(a), &first);
    assert_eq!(first, Some(Ok(ScriptValue::Other(format!("done {}", a)))));
}

#[test]
fn second_import_of_a_dependency_runs_nothing() {
    let mut map = diamond();
    let a = find(&map, "/m/a.js");
    let d = find(&map, "/m/d.js");
    let mut runs = Vec::new();
    let order = evaluation_order(&map, a);
    evaluate_all(&mut map, &order, &mut runs);
    assert!(evaluation_order(&map, d).is_empty());
}

#[test]
fn import_after_partial_evaluation_skips_finished_modules() {
    let mut map = diamond();
    let b = find(&map, "/m/b.js");
    let a = find(&map, "/m/a.js");
    let mut runs = Vec::new();
    let order = evaluation_order(&map, b);
    assert_eq!(names(&map, &order), vec!["/m/d.js", "/m/b.js"]);
    evaluate_all(&mut map, &order, &mut runs);
    let order = evaluation_order(&map, a);
    assert_eq!(names(&map, &order), vec!["/m/c.js", "/m/a.js"]);
}

#[test]
fn cycle_terminates_with_each_module_once() {
    let mut map = ModuleMap::new();
    compile(&mut map, "/m/a.js", &["/m/b.js"]);
    compile(&mut map, "/m/b.js", &["/m/a.js"]);
    map.link_all();
    let a = find(&map, "/m/a.js");
    let order = evaluation_order(&map, a);
    assert_eq!(names(&map, &order), vec!["/m/b.js", "/m/a.js"]);
}

#[test]
fn self_import_terminates() {
    let mut map = ModuleMap::new();
    let a = compile(&mut map, "/m/a.js", &["/m/a.js"]);
    map.link_all();
    assert_eq!(evaluation_order(&map, a), vec![a]);
}

#[test]
fn errored_module_stays_errored() {
    let mut map = ModuleMap::new();
    let a = compile(&mut map, "/m/a.js", &[]);
    map.link_all();
    assert_eq!(map.mark_state(a, ModuleState::Evaluating), Ok(()));
    map.record_outcome(a, Err("boom".to_string()));
    assert_eq!(map.state(a), ModuleState::Errored);
    assert!(evaluation_order(&map, a).is_empty());
    assert_eq!(map.outcome(a), &Some(Err("boom".to_string())));
    assert_eq!(map.mark_state(a, ModuleState::Evaluating), Err(MapError::Regression));
    assert_eq!(map.failure_of(a), Some("boom".to_string()));
}

#[test]
fn states_never_regress() {
    let mut map = ModuleMap::new();
    let a = map.get_or_insert("/m/a.js".to_string());
    assert_eq!(map.mark_state(a, ModuleState::Compiled), Ok(()));
    assert_eq!(map.mark_state(a, ModuleState::Fetching), Err(MapError::Regression));
    assert_eq!(map.mark_state(a, ModuleState::Compiled), Err(MapError::Regression));
    assert_eq!(map.mark_state(7, ModuleState::Linked), Err(MapError::UnknownModule));
    assert_eq!(map.state(a), ModuleState::Compiled);
}

#[test]
fn same_identity_gives_same_record() {
    let mut map = ModuleMap::new();
    let a = map.get_or_insert("/m/a.js".to_string());
    let b = map.get_or_insert("/m/b.js".to_string());
    assert_eq!(map.get_or_insert("/m/a.js".to_string()), a);
    assert_ne!(a, b);
    assert_eq!(map.len(), 2);
    assert_eq!(map.lookup(&"/m/b.js".to_string()).unwrap().identity, "/m/b.js");
    assert!(map.lookup(&"/m/c.js".to_string()).is_none());
}

#[test]
fn compiling_registers_dependencies_for_fetching() {
    let mut map = ModuleMap::new();
    compile(&mut map, "/m/a.js", &["/m/b.js"]);
    let next = map.next_unfetched().unwrap();
    assert_eq!(map.records[next].identity, "/m/b.js");
    assert_eq!(map.state(next), ModuleState::Unresolved);
    assert_eq!(map.records[0].source, "// /m/a.js");
}

#[test]
fn set_compiled_refuses_module_not_being_fetched() {
    let mut map = ModuleMap::new();
    let a = map.get_or_insert("/m/a.js".to_string());
    assert_eq!(map.set_compiled(a, String::new(), &vec![]), Err(MapError::Regression));
    assert_eq!(map.set_compiled(3, String::new(), &vec![]), Err(MapError::UnknownModule));
}

#[test]
fn link_waits_for_dependencies() {
    let mut map = ModuleMap::new();
    let a = compile(&mut map, "/m/a.js", &["/m/b.js"]);
    map.link_all();
    assert_eq!(map.state(a), ModuleState::Compiled);
    compile(&mut map, "/m/b.js", &[]);
    map.link_all();
    assert_eq!(map.state(a), ModuleState::Linked);
}

#[test]
fn failed_import_leaves_nothing_evaluating() {
    let mut map = diamond();
    let a = find(&map, "/m/a.js");
    let order = evaluation_order(&map, a);
    assert_eq!(map.mark_state(order[0], ModuleState::Evaluating), Ok(()));
    map.get_or_insert("/m/e.js".to_string());
    map.fail_unfinished(&"ResolutionError: /m/x.js".to_string());
    for i in 0..map.len() {
        let st = map.state(i);
        assert!(st == ModuleState::Errored || st == ModuleState::Unresolved);
    }
    assert_eq!(map.outcome(a), &Some(Err("ResolutionError: /m/x.js".to_string())));
    assert_eq!(map.state(find(&map, "/m/e.js")), ModuleState::Unresolved);
}

#[test]
fn finished_root_has_empty_order() {
    let mut map = ModuleMap::new();
    let a = compile(&mut map, "/m/a.js", &[]);
    map.link_all();
    assert_eq!(evaluation_order(&map, a), vec![a]);
    assert_eq!(map.mark_state(a, ModuleState::Evaluating), Ok(()));
    map.record_outcome(a, Ok(ScriptValue::Undefined));
    assert_eq!(map.state(a), ModuleState::Evaluated);
    assert!(evaluation_order(&map, a).is_empty());
    assert_eq!(map.failure_of(a), None);
}
