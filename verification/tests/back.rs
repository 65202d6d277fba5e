//! The cache of compiled scripts, joined to a Lua state.

use mlua::{Error, Function, Lua};
use v_m_io::back::ThreadScriptCache;

/// What the script of the given name returns.
fn run(cache: &mut ThreadScriptCache, lua: &Lua, name: &str, source: &str) -> i64 {
    let func = cache.get_or_compile(lua, name, source).unwrap();
    func.call::<i64>(()).unwrap()
}

#[test]
fn cached_script_is_reused() {
    let lua = Lua::new();
    let mut cache = ThreadScriptCache::new(2);
    assert_eq!(1, run(&mut cache, &lua, "a", "return 1"));
    // the name decides, not the source
    assert_eq!(1, run(&mut cache, &lua, "a", "return 2"));
    assert_eq!(1, run(&mut cache, &lua, "a", "no lua at all"));
    assert_eq!(2, run(&mut cache, &lua, "b", "return 2"));
    assert_eq!(1, run(&mut cache, &lua, "a", ""));
}

#[test]
fn full_cache_drops_what_was_used_longest_ago() {
    let lua = Lua::new();
    let mut cache = ThreadScriptCache::new(2);
    assert_eq!(1, run(&mut cache, &lua, "a", "return 1"));
    assert_eq!(2, run(&mut cache, &lua, "b", "return 2"));
    // using `a` leaves `b` as the one used longest ago
    assert_eq!(1, run(&mut cache, &lua, "a", "return 10"));
    assert_eq!(3, run(&mut cache, &lua, "c", "return 3"));
    assert_eq!(1, run(&mut cache, &lua, "a", "return 10"));
    assert_eq!(20, run(&mut cache, &lua, "b", "return 20"));
    // that took the place of `c`
    assert_eq!(1, run(&mut cache, &lua, "a", "return 100"));
    assert_eq!(30, run(&mut cache, &lua, "c", "return 30"));
}

#[test]
fn script_that_does_not_compile_is_not_stored() {
    let lua = Lua::new();
    let mut cache = ThreadScriptCache::new(1);
    assert_eq!(1, run(&mut cache, &lua, "a", "return 1"));
    assert!(matches!(
        cache.get_or_compile(&lua, "b", "return return"),
        Err(Error::SyntaxError { .. })
    ));
    // nothing left the cache for it
    assert_eq!(1, run(&mut cache, &lua, "a", "return 10"));
    assert_eq!(2, run(&mut cache, &lua, "b", "return 2"));
}

#[test]
fn script_of_another_state_is_compiled_again() {
    let lua = Lua::new();
    let other = Lua::new();
    let mut cache = ThreadScriptCache::new(2);
    assert_eq!(1, run(&mut cache, &lua, "a", "return 1"));
    assert_eq!(5, run(&mut cache, &lua, "b", "return 5"));
    // the other state has no such function, and the new one replaces it
    assert_eq!(2, run(&mut cache, &other, "a", "return 2"));
    assert_eq!(2, run(&mut cache, &other, "a", "return 3"));
    // `b` is still there
    assert_eq!(5, run(&mut cache, &lua, "b", "return 6"));
    assert_eq!(4, run(&mut cache, &lua, "a", "return 4"));
}

#[test]
fn what_came_of_recalling_a_script_decides() {
    let lua = Lua::new();
    let func = lua.load("return 4").into_function().unwrap();
    let reused = ThreadScriptCache::reusable(Some(Ok(func))).unwrap();
    assert_eq!(4, reused.call::<i64>(()).unwrap());
    let failed = Err(Error::MismatchedRegistryKey);
    assert!(ThreadScriptCache::reusable(Some(failed)).is_none());
    assert!(ThreadScriptCache::reusable(None).is_none());
}

#[test]
fn what_came_of_keeping_a_script_decides() {
    let lua = Lua::new();
    let compiled = |source: &str| -> Function { lua.load(source).into_function().unwrap() };
    let mut cache = ThreadScriptCache::new(1);

    let func = compiled("return 1");
    let kept = lua.create_registry_value(&func);
    let res = cache.keep_compiled("a", func, kept).unwrap();
    assert_eq!(1, res.call::<i64>(()).unwrap());
    assert_eq!(1, run(&mut cache, &lua, "a", "return 9"));

    let failed = Err(Error::RuntimeError("no room".to_string()));
    let res = cache.keep_compiled("b", compiled("return 2"), failed);
    assert!(matches!(res, Err(Error::RuntimeError(words)) if words == "no room"));
    assert_eq!(1, run(&mut cache, &lua, "a", "return 9"));

    // storing again replaces the function
    let func = compiled("return 3");
    let kept = lua.create_registry_value(&func);
    assert!(cache.keep_compiled("a", func, kept).is_ok());
    assert_eq!(3, run(&mut cache, &lua, "a", "return 9"));
}

#[test]
fn many_scripts_pass_through_a_cache() {
    let lua = Lua::new();
    let mut cache = ThreadScriptCache::new(3);
    for n in 0..50 {
        let name = format!("script {}", n % 7);
        assert_eq!(n, run(&mut cache, &lua, &name, &format!("return {n}")));
        assert_eq!(n, run(&mut cache, &lua, &name, "return -1"));
    }
}

#[test]
fn large_cache_takes_room_as_it_is_filled() {
    let lua = Lua::new();
    let mut cache = ThreadScriptCache::new(usize::MAX);
    assert_eq!(1, run(&mut cache, &lua, "a", "return 1"));
    assert_eq!(2, run(&mut cache, &lua, "b", "return 2"));
    assert_eq!(1, run(&mut cache, &lua, "a", "return 3"));
}
