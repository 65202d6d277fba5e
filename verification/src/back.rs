//! The backend server: its cache of compiled scripts.

use std::collections::HashMap;

use lru::LruCache;
use vstd::prelude::*;
use vstd::string::*;

verus! {

/// Cache of the `lru` crate that drops the entry used longest ago when it is
/// full.
#[verifier::external_type_specification]
#[verifier::external_body]
#[verifier::reject_recursive_types(K)]
#[verifier::reject_recursive_types(V)]
#[verifier::reject_recursive_types(S)]
pub struct ExLruCache<K, V, S>(lru::LruCache<K, V, S>);

/// Hasher that a cache of the `lru` crate uses where none is given.
#[verifier::external_type_specification]
#[verifier::external_body]
pub struct ExLruHasher(lru::DefaultHasher);

/// A Lua state of the `mlua` crate.
#[verifier::external_type_specification]
#[verifier::external_body]
pub struct ExLua(mlua::Lua);

/// A function that lives in a Lua state.
#[verifier::external_type_specification]
#[verifier::external_body]
pub struct ExLuaFunction(mlua::Function);

/// What a value in the registry of a Lua state is found by.
#[verifier::external_type_specification]
#[verifier::external_body]
pub struct ExLuaRegistryKey(mlua::RegistryKey);

/// Failure of a Lua state.
#[verifier::external_type_specification]
#[verifier::external_body]
pub struct ExLuaError(mlua::Error);

/// Names and handles that a cache holds, the one used last first.
pub uninterp spec fn cached(cache: LruCache<String, u64>) -> Seq<(Seq<char>, u64)>;

/// How many entries a cache holds at most.
pub uninterp spec fn cache_limit(cache: LruCache<String, u64>) -> nat;

/// Text that a function was compiled from in a Lua state, or `None` where it is no
/// function that was compiled from a text in that state.
pub uninterp spec fn compiled_text(lua: mlua::Lua, func: mlua::Function) -> Option<Seq<char>>;

/// What the registry holds under a key: the text that the function kept there was
/// compiled from, or `None` where no such function is kept.
pub uninterp spec fn kept_text(key: mlua::RegistryKey) -> Option<Seq<char>>;

/// Scripts that the cache of a thread holds.
pub const SCRIPTS_PER_THREAD: usize = 100;

/// Is there an entry under this name?
pub open spec fn holds<V>(entries: Seq<(Seq<char>, V)>, name: Seq<char>) -> bool {
    exists|i: int| 0 <= i < entries.len() && (#[trigger] entries[i]).0 == name
}

/// The entries but the one under this name.
pub open spec fn without<V>(entries: Seq<(Seq<char>, V)>, name: Seq<char>) -> Seq<(Seq<char>, V)> {
    entries.filter(|e: (Seq<char>, V)| e.0 != name)
}

/// What is stored under this name.
pub open spec fn found<V>(entries: Seq<(Seq<char>, V)>, name: Seq<char>) -> V {
    let i = choose|i: int| 0 <= i < entries.len() && (#[trigger] entries[i]).0 == name;
    entries[i].1
}

/// The entries after one is looked for: it comes first, where there is one.
pub open spec fn touched<V>(entries: Seq<(Seq<char>, V)>, name: Seq<char>) -> Seq<(Seq<char>, V)> {
    if holds(entries, name) {
        seq![(name, found(entries, name))] + without(entries, name)
    } else {
        entries
    }
}

/// The entries after one is stored: it comes first, in place of one of the same
/// name, or else of the last where there is no room for one more.
pub open spec fn stored<V>(
    entries: Seq<(Seq<char>, V)>,
    limit: nat,
    name: Seq<char>,
    value: V,
) -> Seq<(Seq<char>, V)> {
    let kept = if holds(entries, name) {
        without(entries, name)
    } else if entries.len() == limit {
        entries.drop_last()
    } else {
        entries
    };
    seq![(name, value)] + kept
}

/// Calls `LruCache::sparse`: the cache is empty and holds at most `capacity`
/// entries, for which room is taken as they come.
#[verifier::external_body]
fn lru_new(capacity: usize) -> (cache: LruCache<String, u64>)
    requires
        0 < capacity,
    ensures
        cached(cache) == Seq::<(Seq<char>, u64)>::empty(),
        cache_limit(cache) == capacity,
{
    LruCache::sparse(std::num::NonZeroUsize::new(capacity).unwrap())
}

/// Calls `LruCache::get`: the handle under the name, whose entry is then the one
/// used last, or `None` where there is no such entry.
#[verifier::external_body]
fn lru_get(cache: &mut LruCache<String, u64>, name: &str) -> (handle: Option<u64>)
    ensures
        cache_limit(*final(cache)) == cache_limit(*old(cache)),
        match handle {
            Some(h) => cached(*old(cache)).contains((name@, h)) && cached(*final(cache)) == seq![
                (name@, h),
            ] + without(cached(*old(cache)), name@),
            None => !holds(cached(*old(cache)), name@) && cached(*final(cache)) == cached(
                *old(cache),
            ),
        },
{
    cache.get(name).copied()
}

/// Calls `LruCache::push`: the entry is stored, and what it took the place of is
/// returned, be it an entry of the same name or the one used longest ago.
#[verifier::external_body]
fn lru_push(cache: &mut LruCache<String, u64>, name: String, handle: u64) -> (gone: Option<
    (String, u64),
>)
    ensures
        cache_limit(*final(cache)) == cache_limit(*old(cache)),
        cached(*final(cache)) == stored(
            cached(*old(cache)),
            cache_limit(*old(cache)),
            name@,
            handle,
        ),
        match gone {
            Some((n, h)) => if holds(cached(*old(cache)), name@) {
                n@ == name@ && cached(*old(cache)).contains((n@, h))
            } else {
                cached(*old(cache)).len() == cache_limit(*old(cache)) && (n@, h) == cached(
                    *old(cache),
                ).last()
            },
            None => !holds(cached(*old(cache)), name@) && cached(*old(cache)).len() != cache_limit(
                *old(cache),
            ),
        },
{
    cache.push(name, handle)
}

/// Is no name there twice?
pub open spec fn names_unique<V>(entries: Seq<(Seq<char>, V)>) -> bool {
    forall|i: int, j: int| 0 <= i < j < entries.len() ==> entries[i].0 != entries[j].0
}

/// Taking a name out leaves the other names, still unique, and one entry less.
proof fn lemma_without<V>(entries: Seq<(Seq<char>, V)>, name: Seq<char>)
    requires
        names_unique(entries),
    ensures
        names_unique(without(entries, name)),
        !holds(without(entries, name), name),
        forall|n: Seq<char>|
            n != name ==> (#[trigger] holds(without(entries, name), n) <==> holds(entries, n)),
        forall|e: (Seq<char>, V)|
            #[trigger] without(entries, name).contains(e) <==> entries.contains(e) && e.0 != name,
        holds(entries, name) ==> without(entries, name).len() == entries.len() - 1,
        !holds(entries, name) ==> without(entries, name) == entries,
    decreases entries.len(),
{
    reveal(Seq::filter);
    if entries.len() > 0 {
        let front = entries.drop_last();
        let last = entries.last();
        lemma_without(front, name);
        let rest = without(front, name);
        assert(without(entries, name) == if last.0 != name { rest.push(last) } else { rest });
        assert(entries =~= front.push(last));
        assert forall|n: Seq<char>| holds(entries, n) == (holds(front, n) || last.0 == n) by {
            if holds(front, n) {
                let i = choose|i: int| 0 <= i < front.len() && (#[trigger] front[i]).0 == n;
                assert(entries[i].0 == n);
            }
            if last.0 == n {
                assert(entries[entries.len() - 1].0 == n);
            }
            if holds(entries, n) && last.0 != n {
                let i = choose|i: int| 0 <= i < entries.len() && (#[trigger] entries[i]).0 == n;
                assert(front[i].0 == n);
            }
        }
        assert(!holds(front, last.0)) by {
            if holds(front, last.0) {
                let i = choose|i: int| 0 <= i < front.len() && (#[trigger] front[i]).0 == last.0;
                assert(entries[i].0 == entries[entries.len() - 1].0);
            }
        }
        assert forall|e: (Seq<char>, V)| entries.contains(e) == (front.contains(e) || last
            == e) by {
            if front.contains(e) {
                let i = choose|i: int| 0 <= i < front.len() && front[i] == e;
                assert(entries[i] == e);
            }
            if last == e {
                assert(entries[entries.len() - 1] == e);
            }
            if entries.contains(e) && last != e {
                let i = choose|i: int| 0 <= i < entries.len() && entries[i] == e;
                assert(front[i] == e);
            }
        }
        if last.0 != name {
            let all = rest.push(last);
            assert forall|n: Seq<char>| holds(all, n) == (holds(rest, n) || last.0 == n) by {
                if holds(rest, n) {
                    let i = choose|i: int| 0 <= i < rest.len() && (#[trigger] rest[i]).0 == n;
                    assert(all[i].0 == n);
                }
                if last.0 == n {
                    assert(all[all.len() - 1].0 == n);
                }
                if holds(all, n) && last.0 != n {
                    let i = choose|i: int| 0 <= i < all.len() && (#[trigger] all[i]).0 == n;
                    assert(rest[i].0 == n);
                }
            }
            assert forall|e: (Seq<char>, V)| all.contains(e) == (rest.contains(e) || last
                == e) by {
                if rest.contains(e) {
                    let i = choose|i: int| 0 <= i < rest.len() && rest[i] == e;
                    assert(all[i] == e);
                }
                if last == e {
                    assert(all[all.len() - 1] == e);
                }
                if all.contains(e) && last != e {
                    let i = choose|i: int| 0 <= i < all.len() && all[i] == e;
                    assert(rest[i] == e);
                }
            }
            assert(names_unique(all)) by {
                assert(!holds(rest, last.0));
                assert forall|i: int, j: int| 0 <= i < j < all.len() implies all[i].0
                    != all[j].0 by {
                    assert(all[i] == rest[i]);
                    assert(holds(rest, rest[i].0));
                }
            }
        }
    }
}

/// Is no handle there twice?
pub open spec fn handles_unique(entries: Seq<(Seq<char>, u64)>) -> bool {
    forall|i: int, j: int| 0 <= i < j < entries.len() ==> entries[i].1 != entries[j].1
}

/// Is this the handle of an entry?
pub open spec fn uses(entries: Seq<(Seq<char>, u64)>, handle: u64) -> bool {
    exists|i: int| 0 <= i < entries.len() && (#[trigger] entries[i]).1 == handle
}

/// Calls `Chunk::into_function` on what `Lua::load` makes of a text: the text is
/// compiled and not run. Whether that succeeds depends on the text and on the
/// memory and stack that the Lua state has, and is not stated.
#[verifier::external_body]
fn lua_compile(lua: &mlua::Lua, source: &str) -> (res: Result<mlua::Function, mlua::Error>)
    ensures
        res is Ok ==> compiled_text(*lua, res->Ok_0) == Some(source@),
{
    lua.load(source).into_function()
}

/// Calls `Lua::create_registry_value`: the function is kept in the registry of the
/// Lua state that it lives in, and found there by the key. It fails where the
/// Lua state has no memory left, which is not stated.
#[verifier::external_body]
fn lua_keep(lua: &mlua::Lua, func: &mlua::Function) -> (res: Result<mlua::RegistryKey, mlua::Error>)
    requires
        compiled_text(*lua, *func) is Some,
    ensures
        res is Ok ==> kept_text(res->Ok_0) == compiled_text(*lua, *func),
{
    lua.create_registry_value(func)
}

/// Calls `Lua::registry_value`: the function that is kept under the key. It fails
/// where the key is of another Lua state or what is kept is no function; which
/// keys are of which Lua state is not stated. The Lua state needs memory for one
/// more reference to the function.
#[verifier::external_body]
fn lua_recall(lua: &mlua::Lua, key: &mlua::RegistryKey) -> (res: Result<mlua::Function, mlua::Error>)
    ensures
        res is Ok ==> compiled_text(*lua, res->Ok_0) == kept_text(*key),
{
    lua.registry_value::<mlua::Function>(key)
}

/// Is this what came of recalling a function that was compiled from the text?
pub closed spec fn recalled(
    lua: mlua::Lua,
    text: Option<Seq<char>>,
    outcome: Result<mlua::Function, mlua::Error>,
) -> bool {
    exists|key: mlua::RegistryKey|
        kept_text(key) == text && #[trigger] call_ensures(lua_recall, (&lua, &key), outcome)
}

/// Is this what came of compiling the source?
pub closed spec fn compiled(
    lua: mlua::Lua,
    source: &str,
    outcome: Result<mlua::Function, mlua::Error>,
) -> bool {
    call_ensures(lua_compile, (&lua, source), outcome)
}

/// Did the Lua state refuse, with this error, to keep a function that was compiled
/// from the source?
pub closed spec fn keep_refused(lua: mlua::Lua, source: &str, err: mlua::Error) -> bool {
    exists|func: mlua::Function|
        compiled(lua, source, Ok(func)) && #[trigger] call_ensures(
            lua_keep,
            (&lua, &func),
            Err::<mlua::RegistryKey, mlua::Error>(err),
        )
}

/// Is there no function to reuse for a script: is it not in the cache, or did
/// recalling its function fail?
pub open spec fn to_compile(
    entries: Seq<(Seq<char>, Option<Seq<char>>)>,
    lua: mlua::Lua,
    name: Seq<char>,
) -> bool {
    holds(entries, name) ==> exists|err: mlua::Error| #[trigger]
        recalled(lua, found(entries, name), Err(err))
}

/// Cache of the scripts that a thread has compiled. The registry of the thread's
/// Lua state keeps the compiled functions, each under a key, and every key has a
/// handle, which is what the cache finds by name.
pub struct ThreadScriptCache {
    cache: LruCache<String, u64>,
    keys: HashMap<u64, mlua::RegistryKey>,
}

/// The names in a cache, each with what is kept for it.
pub open spec fn texts(entries: Seq<(Seq<char>, u64)>, keys: Map<u64, mlua::RegistryKey>) -> Seq<
    (Seq<char>, Option<Seq<char>>),
> {
    entries.map_values(|e: (Seq<char>, u64)| (e.0, kept_text(keys[e.1])))
}

impl ThreadScriptCache {
    /// Names in the cache and the texts that their functions were compiled from,
    /// the one used last first.
    pub closed spec fn entries(&self) -> Seq<(Seq<char>, Option<Seq<char>>)> {
        texts(cached(self.cache), self.keys@)
    }

    /// How many scripts the cache holds at most.
    pub closed spec fn limit(&self) -> nat {
        cache_limit(self.cache)
    }

    /// No name is there twice, there are no more entries than there may be, and
    /// each has a key of its own.
    pub closed spec fn inv(&self) -> bool {
        let entries = cached(self.cache);
        &&& names_unique(entries)
        &&& entries.len() <= cache_limit(self.cache)
        &&& cache_limit(self.cache) > 0
        &&& handles_unique(entries)
        &&& forall|handle: u64| #[trigger]
            self.keys@.contains_key(handle) <==> uses(entries, handle)
    }

    /// An empty cache for up to `capacity` scripts.
    pub fn new(capacity: usize) -> (cache: Self)
        requires
            0 < capacity,
        ensures
            cache.inv(),
            cache.entries() == Seq::<(Seq<char>, Option<Seq<char>>)>::empty(),
            cache.limit() == capacity,
    {
        broadcast use vstd::std_specs::hash::group_hash_axioms;

        let res = ThreadScriptCache { cache: lru_new(capacity), keys: HashMap::new() };
        assert(res.entries() =~= Seq::empty());
        res
    }

    /// A handle that no key has.
    fn free_handle(&self) -> (handle: u64)
        ensures
            !self.keys@.contains_key(handle),
    {
        broadcast use vstd::std_specs::hash::group_hash_axioms;

        let count: u64 = self.keys.len() as u64;
        let mut handle: u64 = 0;
        while self.keys.contains_key(&handle)
            invariant
                count == self.keys@.len(),
                handle <= count,
                forall|h: u64| h < handle ==> #[trigger] self.keys@.contains_key(h),
            decreases count - handle,
        {
            proof {
                lemma_first_handles(self.keys@, handle);
            }
            handle = handle + 1;
        }
        handle
    }

    /// What recalling the function of the script with the given name gives, or
    /// `None` where there is no such script. Its entry is then the one used last.
    fn recall(&mut self, lua: &mlua::Lua, name: &str) -> (res: Option<
        Result<mlua::Function, mlua::Error>,
    >)
        requires
            old(self).inv(),
        ensures
            final(self).inv(),
            final(self).limit() == old(self).limit(),
            final(self).entries() == touched(old(self).entries(), name@),
            match res {
                Some(outcome) => holds(old(self).entries(), name@) && recalled(
                    *lua,
                    found(old(self).entries(), name@),
                    outcome,
                ),
                None => !holds(old(self).entries(), name@),
            },
            res is Some && res->0 is Ok ==> compiled_text(*lua, res->0->Ok_0) == found(
                old(self).entries(),
                name@,
            ),
    {
        broadcast use vstd::std_specs::hash::group_hash_axioms;

        let ghost before = cached(self.cache);
        let handle = lru_get(&mut self.cache, name);
        proof {
            lemma_touched_texts(before, self.keys@, name@);
            if handle is Some {
                lemma_found(before, name@, handle->0);
                let i = choose|i: int| 0 <= i < before.len() && before[i] == (name@, handle->0);
                assert(before[i].1 == handle->0);
                assert(uses(before, handle->0));
            }
            lemma_touched_handles(before, name@);
        }
        match handle {
            None => None,
            Some(handle) => match self.keys.get(&handle) {
                None => None,
                Some(key) => Some(lua_recall(lua, key)),
            },
        }
    }

    /// The function to reuse, given what recalling it gave: whatever was recalled
    /// is reused, and only where there is nothing to recall, or that failed, the
    /// script is to be compiled.
    pub fn reusable(outcome: Option<Result<mlua::Function, mlua::Error>>) -> (func: Option<
        mlua::Function,
    >)
        ensures
            func == match outcome {
                Some(Ok(func)) => Some(func),
                _ => None,
            },
    {
        match outcome {
            Some(Ok(func)) => Some(func),
            Some(Err(_)) => None,
            None => None,
        }
    }

    /// Go on after a script was compiled, given what came of keeping its function
    /// in the registry: where it is kept it is stored under the name, in place of
    /// what was there, or else of the script used longest ago where there is no
    /// room for one more.
    pub fn keep_compiled(
        &mut self,
        name: &str,
        func: mlua::Function,
        kept: Result<mlua::RegistryKey, mlua::Error>,
    ) -> (res: Result<mlua::Function, mlua::Error>)
        requires
            old(self).inv(),
        ensures
            final(self).inv(),
            final(self).limit() == old(self).limit(),
            match kept {
                Ok(key) => res == Ok::<mlua::Function, mlua::Error>(func) && final(self).entries()
                    == stored(old(self).entries(), old(self).limit(), name@, kept_text(key)),
                Err(err) => res == Err::<mlua::Function, mlua::Error>(err) && final(self).entries()
                    == old(self).entries(),
            },
    {
        broadcast use vstd::std_specs::hash::group_hash_axioms;

        let key = match kept {
            Ok(key) => key,
            Err(err) => {
                return Err(err);
            },
        };
        let ghost before = cached(self.cache);
        let ghost keys = self.keys@;
        let handle = self.free_handle();
        self.keys.insert(handle, key);
        let gone = lru_push(&mut self.cache, name.to_owned(), handle);
        match gone {
            Some((_, left)) => {
                self.keys.remove(&left);
            },
            None => {},
        }
        proof {
            let left: Option<u64> = match gone {
                Some((_, h)) => Some(h),
                None => None,
            };
            assert(self.keys@ =~= match left {
                Some(h) => keys.insert(handle, key).remove(h),
                None => keys.insert(handle, key),
            });
            lemma_stored_keys(before, keys, self.limit(), name@, handle, key, left, self.keys@);
        }
        Ok(func)
    }

    /// The compiled function of the script with the given name: the one in the
    /// cache, whatever it was compiled from, or else one compiled from the source,
    /// which is then in the cache.
    ///
    /// A script that is in the cache is compiled again only where the Lua state
    /// did not give its function back, and this fails only where the Lua state
    /// then refused to compile the source or to keep what came of it.
    pub fn get_or_compile(&mut self, lua: &mlua::Lua, name: &str, source: &str) -> (res: Result<
        mlua::Function,
        mlua::Error,
    >)
        requires
            old(self).inv(),
        ensures
            final(self).inv(),
            final(self).limit() == old(self).limit(),
            match res {
                Ok(func) => {
                    ||| {
                        let text = found(old(self).entries(), name@);
                        &&& holds(old(self).entries(), name@)
                        &&& recalled(*lua, text, Ok(func))
                        &&& compiled_text(*lua, func) == text
                        &&& final(self).entries() == touched(old(self).entries(), name@)
                    }
                    ||| {
                        &&& to_compile(old(self).entries(), *lua, name@)
                        &&& compiled(*lua, source, Ok(func))
                        &&& compiled_text(*lua, func) == Some(source@)
                        &&& final(self).entries() == stored(
                            old(self).entries(),
                            old(self).limit(),
                            name@,
                            Some(source@),
                        )
                    }
                },
                Err(err) => {
                    &&& to_compile(old(self).entries(), *lua, name@)
                    &&& compiled(*lua, source, Err(err)) || keep_refused(*lua, source, err)
                    &&& final(self).entries() == touched(old(self).entries(), name@)
                },
            },
            res is Ok ==> final(self).entries().len() > 0 && final(self).entries().first().0
                == name@,
    {
        let outcome = self.recall(lua, name);
        let ghost tried = outcome;
        match Self::reusable(outcome) {
            Some(func) => {
                return Ok(func);
            },
            None => {},
        }
        assert(to_compile(old(self).entries(), *lua, name@)) by {
            if tried is Some {
                let text = found(old(self).entries(), name@);
                assert(tried->0 is Err);
                assert(recalled(*lua, text, Err(tried->0->Err_0)));
            }
        }
        let func = match lua_compile(lua, source) {
            Ok(func) => func,
            Err(err) => {
                assert(compiled(*lua, source, Err(err)));
                return Err(err);
            },
        };
        let kept = lua_keep(lua, &func);
        proof {
            assert(compiled(*lua, source, Ok(func)));
            if kept is Err {
                assert(call_ensures(
                    lua_keep,
                    (lua, &func),
                    Err::<mlua::RegistryKey, mlua::Error>(kept->Err_0),
                ));
                assert(keep_refused(*lua, source, kept->Err_0));
            }
            self.lemma_unique();
            old(self).lemma_unique();
            lemma_stored_touched(old(self).entries(), self.limit(), name@, Some(source@));
        }
        self.keep_compiled(name, func, kept)
    }

    /// No name is in the cache twice, and no more scripts than there may be.
    pub proof fn lemma_unique(&self)
        requires
            self.inv(),
        ensures
            names_unique(self.entries()),
            self.entries().len() <= self.limit(),
            self.limit() > 0,
    {
    }
}

/// As many handles as keys are taken where every smaller one is.
proof fn lemma_first_handles(keys: Map<u64, mlua::RegistryKey>, handle: u64)
    requires
        keys.dom().finite(),
        keys.contains_key(handle),
        forall|h: u64| h < handle ==> #[trigger] keys.contains_key(h),
    ensures
        handle < keys.len(),
{
    let small = Set::new(|h: u64| h <= handle);
    lemma_small_handles(handle);
    assert(small.subset_of(keys.dom()));
    vstd::set_lib::lemma_len_subset(small, keys.dom());
}

/// How many handles there are up to a given one.
proof fn lemma_small_handles(handle: u64)
    ensures
        Set::new(|h: u64| h <= handle).finite(),
        Set::new(|h: u64| h <= handle).len() == handle + 1,
    decreases handle,
{
    let all = Set::new(|h: u64| h <= handle);
    if handle == 0 {
        assert(all =~= set![0u64]);
    } else {
        let prev: u64 = (handle - 1) as u64;
        lemma_small_handles(prev);
        assert(all =~= Set::new(|h: u64| h <= prev).insert(handle));
    }
}

/// Taking a name out of what the entries stand for is taking it out of the
/// entries.
proof fn lemma_without_texts(
    entries: Seq<(Seq<char>, u64)>,
    keys: Map<u64, mlua::RegistryKey>,
    name: Seq<char>,
)
    ensures
        without(texts(entries, keys), name) == texts(without(entries, name), keys),
    decreases entries.len(),
{
    reveal(Seq::filter);
    if entries.len() > 0 {
        let front = entries.drop_last();
        lemma_without_texts(front, keys, name);
        assert(texts(entries, keys).drop_last() =~= texts(front, keys));
        assert(texts(entries, keys).last().0 == entries.last().0);
        if entries.last().0 != name {
            assert(texts(without(front, name).push(entries.last()), keys) =~= texts(
                without(front, name),
                keys,
            ).push(texts(entries, keys).last()));
        }
    } else {
        assert(texts(entries, keys) =~= Seq::empty());
        assert(without(entries, name) =~= Seq::empty());
    }
}

/// What the entries stand for has the same names.
proof fn lemma_texts_hold(
    entries: Seq<(Seq<char>, u64)>,
    keys: Map<u64, mlua::RegistryKey>,
    name: Seq<char>,
)
    ensures
        holds(texts(entries, keys), name) == holds(entries, name),
{
    let all = texts(entries, keys);
    if holds(entries, name) {
        let i = choose|i: int| 0 <= i < entries.len() && (#[trigger] entries[i]).0 == name;
        assert(all[i].0 == name);
    }
    if holds(all, name) {
        let i = choose|i: int| 0 <= i < all.len() && (#[trigger] all[i]).0 == name;
        assert(entries[i].0 == name);
    }
}

/// An entry is what is found under its name.
pub proof fn lemma_found<V>(entries: Seq<(Seq<char>, V)>, name: Seq<char>, value: V)
    requires
        names_unique(entries),
        entries.contains((name, value)),
    ensures
        holds(entries, name),
        found(entries, name) == value,
{
    let i = choose|i: int| 0 <= i < entries.len() && entries[i] == (name, value);
    assert(entries[i].0 == name);
    let j = choose|j: int| 0 <= j < entries.len() && (#[trigger] entries[j]).0 == name;
    if i < j {
        assert(entries[i].0 != entries[j].0);
    } else if j < i {
        assert(entries[j].0 != entries[i].0);
    }
}

/// Taking a name out leaves the handles of the other entries, still unique.
proof fn lemma_without_handles(entries: Seq<(Seq<char>, u64)>, name: Seq<char>)
    requires
        names_unique(entries),
        handles_unique(entries),
    ensures
        handles_unique(without(entries, name)),
        forall|i: int|
            0 <= i < without(entries, name).len() ==> uses(
                entries,
                (#[trigger] without(entries, name)[i]).1,
            ),
        forall|i: int|
            0 <= i < entries.len() && (#[trigger] entries[i]).0 != name ==> uses(
                without(entries, name),
                entries[i].1,
            ),
        forall|i: int|
            0 <= i < entries.len() && (#[trigger] entries[i]).0 == name ==> !uses(
                without(entries, name),
                entries[i].1,
            ),
    decreases entries.len(),
{
    lemma_without(entries, name);
    let less = without(entries, name);
    assert forall|i: int| 0 <= i < less.len() implies uses(entries, (#[trigger] less[i]).1) by {
        assert(less.contains(less[i]));
        let j = choose|j: int| 0 <= j < entries.len() && entries[j] == less[i];
        assert(entries[j].1 == less[i].1);
    }
    assert forall|i: int|
        0 <= i < entries.len() && (#[trigger] entries[i]).0 != name implies uses(
        less,
        entries[i].1,
    ) by {
        assert(less.contains(entries[i]));
        let j = choose|j: int| 0 <= j < less.len() && less[j] == entries[i];
        assert(less[j].1 == entries[i].1);
    }
    assert forall|i: int|
        0 <= i < entries.len() && (#[trigger] entries[i]).0 == name implies !uses(
        less,
        entries[i].1,
    ) by {
        if uses(less, entries[i].1) {
            let j = choose|j: int| 0 <= j < less.len() && (#[trigger] less[j]).1 == entries[i].1;
            assert(less.contains(less[j]));
            let k = choose|k: int| 0 <= k < entries.len() && entries[k] == less[j];
            assert(entries[k].1 == entries[i].1 && entries[k].0 != entries[i].0);
        }
    }
    reveal(Seq::filter);
    if entries.len() > 0 {
        let front = entries.drop_last();
        let last = entries.last();
        lemma_without_handles(front, name);
        let rest = without(front, name);
        assert(less == if last.0 != name { rest.push(last) } else { rest });
        assert forall|i: int| 0 <= i < rest.len() implies (#[trigger] rest[i]).1 != last.1 by {
            assert(uses(front, rest[i].1));
            let j = choose|j: int| 0 <= j < front.len() && (#[trigger] front[j]).1 == rest[i].1;
            assert(entries[j].1 != entries[entries.len() - 1].1);
        }
    }
}

/// Looking for an entry keeps the cache in order, and its handles.
proof fn lemma_touched_handles(entries: Seq<(Seq<char>, u64)>, name: Seq<char>)
    requires
        names_unique(entries),
        handles_unique(entries),
    ensures
        names_unique(touched(entries, name)),
        handles_unique(touched(entries, name)),
        touched(entries, name).len() == entries.len(),
        forall|handle: u64| #[trigger]
            uses(touched(entries, name), handle) <==> uses(entries, handle),
{
    if holds(entries, name) {
        let at = choose|i: int| 0 <= i < entries.len() && (#[trigger] entries[i]).0 == name;
        let less = without(entries, name);
        let all = touched(entries, name);
        lemma_without(entries, name);
        lemma_without_handles(entries, name);
        lemma_front(name, entries[at].1, less);
        lemma_front_handle(name, entries[at].1, less);
        assert forall|handle: u64| #[trigger] uses(all, handle) <==> uses(entries, handle) by {
            if uses(all, handle) {
                let i = choose|i: int| 0 <= i < all.len() && (#[trigger] all[i]).1 == handle;
                if i == 0 {
                    assert(entries[at].1 == handle);
                } else {
                    assert(all[i] == less[i - 1]);
                }
            }
            if uses(entries, handle) {
                let i = choose|i: int| 0 <= i < entries.len() && (#[trigger] entries[i]).1
                    == handle;
                if entries[i].0 == name {
                    if i < at {
                        assert(entries[i].0 != entries[at].0);
                    } else if at < i {
                        assert(entries[at].0 != entries[i].0);
                    }
                    assert(all[0].1 == handle);
                }
            }
        }
    }
}

/// An entry with a new handle may come first, and its handle is then in use
/// beside the others.
proof fn lemma_front_handle(name: Seq<char>, handle: u64, rest: Seq<(Seq<char>, u64)>)
    requires
        handles_unique(rest),
        !uses(rest, handle),
    ensures
        handles_unique(seq![(name, handle)] + rest),
        forall|h: u64| #[trigger]
            uses(seq![(name, handle)] + rest, h) <==> h == handle || uses(rest, h),
{
    let all = seq![(name, handle)] + rest;
    assert forall|i: int, j: int| 0 <= i < j < all.len() implies all[i].1 != all[j].1 by {
        assert(all[j] == rest[j - 1]);
        if i > 0 {
            assert(all[i] == rest[i - 1]);
        } else {
            assert(rest[j - 1].1 != handle);
        }
    }
    assert forall|h: u64| #[trigger] uses(all, h) <==> h == handle || uses(rest, h) by {
        if h == handle {
            assert(all[0].1 == h);
        }
        if uses(rest, h) {
            let i = choose|i: int| 0 <= i < rest.len() && (#[trigger] rest[i]).1 == h;
            assert(all[i + 1].1 == h);
        }
        if uses(all, h) && h != handle {
            let i = choose|i: int| 0 <= i < all.len() && (#[trigger] all[i]).1 == h;
            assert(rest[i - 1].1 == h);
        }
    }
}

/// Looking for what the entries stand for is looking for the entries.
proof fn lemma_touched_texts(
    entries: Seq<(Seq<char>, u64)>,
    keys: Map<u64, mlua::RegistryKey>,
    name: Seq<char>,
)
    requires
        names_unique(entries),
    ensures
        touched(texts(entries, keys), name) == texts(touched(entries, name), keys),
        holds(texts(entries, keys), name) == holds(entries, name),
        holds(entries, name) ==> found(texts(entries, keys), name) == kept_text(
            keys[found(entries, name)],
        ),
{
    lemma_texts_hold(entries, keys, name);
    if holds(entries, name) {
        let all = texts(entries, keys);
        let i = choose|i: int| 0 <= i < entries.len() && (#[trigger] entries[i]).0 == name;
        assert(all[i] == (name, kept_text(keys[entries[i].1])));
        assert(names_unique(all));
        lemma_found(all, name, all[i].1);
        lemma_without_texts(entries, keys, name);
        assert(touched(all, name) =~= texts(touched(entries, name), keys));
    }
}

/// Storing a key under a free handle, and forgetting the key whose handle left
/// the cache for it, keeps the cache in order, and what the entries stand for is
/// stored as the entries are.
proof fn lemma_stored_keys(
    entries: Seq<(Seq<char>, u64)>,
    keys: Map<u64, mlua::RegistryKey>,
    limit: nat,
    name: Seq<char>,
    handle: u64,
    key: mlua::RegistryKey,
    left: Option<u64>,
    keys2: Map<u64, mlua::RegistryKey>,
)
    requires
        names_unique(entries),
        handles_unique(entries),
        entries.len() <= limit,
        limit > 0,
        forall|h: u64| #[trigger] keys.contains_key(h) <==> uses(entries, h),
        !keys.contains_key(handle),
        match left {
            Some(h) => if holds(entries, name) {
                entries.contains((name, h))
            } else {
                entries.len() == limit && h == entries.last().1
            },
            None => !holds(entries, name) && entries.len() != limit,
        },
        keys2 == match left {
            Some(h) => keys.insert(handle, key).remove(h),
            None => keys.insert(handle, key),
        },
    ensures
        ({
            let after = stored(entries, limit, name, handle);
            &&& names_unique(after)
            &&& handles_unique(after)
            &&& after.len() <= limit
            &&& forall|h: u64| #[trigger] keys2.contains_key(h) <==> uses(after, h)
            &&& texts(after, keys2) == stored(texts(entries, keys), limit, name, kept_text(key))
        }),
{
    let after = stored(entries, limit, name, handle);
    let kept = after.skip(1);
    lemma_stored(entries, limit, name, handle);
    lemma_texts_hold(entries, keys, name);
    assert(!uses(entries, handle));
    if holds(entries, name) {
        let h = left->0;
        let at = choose|i: int| 0 <= i < entries.len() && entries[i] == (name, h);
        lemma_without_handles(entries, name);
        lemma_without_texts(entries, keys, name);
        assert(kept =~= without(entries, name));
        assert forall|u: u64| #[trigger] uses(kept, u) <==> uses(entries, u) && u != h by {
            if uses(kept, u) {
                let i = choose|i: int| 0 <= i < kept.len() && (#[trigger] kept[i]).1 == u;
                assert(uses(entries, without(entries, name)[i].1));
                assert(!uses(kept, entries[at].1));
            }
            if uses(entries, u) && u != h {
                let i = choose|i: int| 0 <= i < entries.len() && (#[trigger] entries[i]).1 == u;
                if entries[i].0 == name {
                    if i < at {
                        assert(entries[i].0 != entries[at].0);
                    } else if at < i {
                        assert(entries[at].0 != entries[i].0);
                    }
                }
            }
        }
        assert(texts(kept, keys) == without(texts(entries, keys), name));
    } else if entries.len() == limit {
        let h = left->0;
        assert(kept =~= entries.drop_last());
        assert forall|u: u64| #[trigger] uses(kept, u) <==> uses(entries, u) && u != h by {
            if uses(kept, u) {
                let i = choose|i: int| 0 <= i < kept.len() && (#[trigger] kept[i]).1 == u;
                assert(entries[i].1 == u);
                assert(entries[i].1 != entries[entries.len() - 1].1);
            }
            if uses(entries, u) && u != h {
                let i = choose|i: int| 0 <= i < entries.len() && (#[trigger] entries[i]).1 == u;
                assert(kept[i].1 == u);
            }
        }
        assert(texts(kept, keys) =~= texts(entries, keys).drop_last());
    } else {
        assert(kept =~= entries);
    }
    assert(handles_unique(kept));
    assert(!uses(kept, handle));
    lemma_front_handle(name, handle, kept);
    assert(after =~= seq![(name, handle)] + kept);
    if left is Some {
        assert(uses(entries, left->0)) by {
            if holds(entries, name) {
                let i = choose|i: int| 0 <= i < entries.len() && entries[i] == (name, left->0);
                assert(entries[i].1 == left->0);
            } else {
                assert(entries[entries.len() - 1].1 == left->0);
            }
        }
    }
    assert forall|i: int| 0 <= i < kept.len() implies keys2[(#[trigger] kept[i]).1]
        == keys[kept[i].1] by {
        assert(uses(kept, kept[i].1));
    }
    assert(texts(kept, keys2) =~= texts(kept, keys));
    assert(texts(after, keys2) =~= seq![(name, kept_text(key))] + texts(kept, keys2));
}

/// Storing a script is the same whether it was looked for before or not.
pub proof fn lemma_stored_touched<V>(
    entries: Seq<(Seq<char>, V)>,
    limit: nat,
    name: Seq<char>,
    value: V,
)
    requires
        names_unique(entries),
    ensures
        stored(touched(entries, name), limit, name, value) == stored(entries, limit, name, value),
{
    if holds(entries, name) {
        let less = without(entries, name);
        let first = (name, found(entries, name));
        let all = touched(entries, name);
        lemma_without(entries, name);
        lemma_front(name, first.1, less);
        lemma_without(all, name);
        assert(all[0].0 == name);
        lemma_without_front(first, less);
    }
}

/// Taking the first entry out by its name leaves the rest.
proof fn lemma_without_front<V>(first: (Seq<char>, V), rest: Seq<(Seq<char>, V)>)
    requires
        names_unique(rest),
        !holds(rest, first.0),
    ensures
        without(seq![first] + rest, first.0) == rest,
{
    let alone = seq![first];
    let others = |e: (Seq<char>, V)| e.0 != first.0;
    Seq::filter_distributes_over_add(alone, rest, others);
    lemma_without(rest, first.0);
    assert(alone.filter(others) =~= Seq::empty()) by {
        reveal(Seq::filter);
        assert(alone.drop_last() =~= Seq::empty());
        assert(alone.last() == first);
        assert(alone.drop_last().filter(others) =~= Seq::empty());
    }
    assert(without(alone + rest, first.0) =~= rest);
}

/// A script that was used last stays where it is when it is looked for again: one
/// that was just compiled is found under its name with the text it was compiled
/// from, and the cache stays as it is.
pub proof fn lemma_used_last<V>(first: (Seq<char>, V), rest: Seq<(Seq<char>, V)>)
    requires
        names_unique(seq![first] + rest),
    ensures
        holds(seq![first] + rest, first.0),
        found(seq![first] + rest, first.0) == first.1,
        touched(seq![first] + rest, first.0) == seq![first] + rest,
{
    let all = seq![first] + rest;
    assert(all[0] == first);
    lemma_found(all, first.0, first.1);
    assert(!holds(rest, first.0)) by {
        if holds(rest, first.0) {
            let i = choose|i: int| 0 <= i < rest.len() && (#[trigger] rest[i]).0 == first.0;
            assert(all[i + 1].0 == all[0].0);
        }
    }
    assert(names_unique(rest)) by {
        assert forall|i: int, j: int| 0 <= i < j < rest.len() implies rest[i].0 != rest[j].0 by {
            assert(all[i + 1].0 != all[j + 1].0);
        }
    }
    lemma_without_front(first, rest);
}

/// An entry with a new name may come first.
proof fn lemma_front<V>(name: Seq<char>, value: V, rest: Seq<(Seq<char>, V)>)
    requires
        names_unique(rest),
        !holds(rest, name),
    ensures
        names_unique(seq![(name, value)] + rest),
{
    let all = seq![(name, value)] + rest;
    assert forall|i: int, j: int| 0 <= i < j < all.len() implies all[i].0 != all[j].0 by {
        assert(all[j] == rest[j - 1]);
        if i > 0 {
            assert(all[i] == rest[i - 1]);
        } else {
            assert(holds(rest, rest[j - 1].0));
        }
    }
}

/// Storing a script keeps the cache in order: no name is there twice, there are
/// no more entries than there may be, the stored one is the first, and of the
/// others at most one is gone, the one used longest ago.
pub proof fn lemma_stored<V>(
    entries: Seq<(Seq<char>, V)>,
    limit: nat,
    name: Seq<char>,
    value: V,
)
    requires
        names_unique(entries),
        entries.len() <= limit,
        limit > 0,
    ensures
        names_unique(stored(entries, limit, name, value)),
        stored(entries, limit, name, value).len() <= limit,
        stored(entries, limit, name, value).first() == (name, value),
        forall|e: (Seq<char>, V)|
            e.0 != name && entries.contains(e) && e != entries.last()
                ==> #[trigger] stored(entries, limit, name, value).contains(e),
{
    lemma_without(entries, name);
    let all = stored(entries, limit, name, value);
    let kept = all.skip(1);
    if holds(entries, name) {
        lemma_front(name, value, without(entries, name));
        assert(kept =~= without(entries, name));
    } else if entries.len() == limit {
        let front = entries.drop_last();
        assert(kept =~= front);
        assert(!holds(front, name)) by {
            if holds(front, name) {
                let i = choose|i: int| 0 <= i < front.len() && (#[trigger] front[i]).0 == name;
                assert(entries[i].0 == name);
            }
        }
        lemma_front(name, value, front);
    } else {
        assert(kept =~= entries);
        lemma_front(name, value, entries);
    }
    assert forall|e: (Seq<char>, V)|
        e.0 != name && entries.contains(e) && e != entries.last() implies #[trigger] all.contains(
        e,
    ) by {
        let i = choose|i: int| 0 <= i < entries.len() && entries[i] == e;
        if holds(entries, name) {
            assert(without(entries, name).contains(e));
        } else if entries.len() == limit {
            assert(entries.drop_last()[i] == e);
        } else {
            assert(entries.contains(e));
        }
        assert(kept.contains(e));
        let j = choose|j: int| 0 <= j < kept.len() && kept[j] == e;
        assert(all[j + 1] == e);
    }
}

/// A script that was stored is found again, under the value it was stored with.
pub proof fn lemma_stored_found<V>(
    entries: Seq<(Seq<char>, V)>,
    limit: nat,
    name: Seq<char>,
    value: V,
    other: V,
)
    requires
        names_unique(entries),
        entries.len() <= limit,
        limit > 0,
    ensures
        holds(stored(entries, limit, name, value), name),
        stored(entries, limit, name, value).contains((name, other)) ==> other == value,
{
    lemma_stored(entries, limit, name, value);
    let all = stored(entries, limit, name, value);
    assert(all[0].0 == name);
    if all.contains((name, other)) {
        let i = choose|i: int| 0 <= i < all.len() && all[i] == (name, other);
        if i > 0 {
            assert(all[0].0 != all[i].0);
        }
    }
}

/// What asking for a script does to the others in the cache: they stay as they are
/// and in their order. Only where a script that was not in the cache comes to a full
/// one, the one used longest ago makes room. The script that was asked for is then
/// the one used last, and where it could not be had nothing is lost for it.
pub proof fn lemma_others_stay(
    cache: &mut ThreadScriptCache,
    lua: &mlua::Lua,
    name: &str,
    source: &str,
    res: Result<mlua::Function, mlua::Error>,
)
    requires
        old(cache).inv(),
        call_ensures(ThreadScriptCache::get_or_compile, (cache, lua, name, source), res),
    ensures
        ({
            let (was, is) = (old(cache).entries(), final(cache).entries());
            let others = |e: (Seq<char>, Option<Seq<char>>)| e.0 != name@;
            let there = exists|i: int| 0 <= i < was.len() && (#[trigger] was[i]).0 == name@;
            &&& final(cache).limit() == old(cache).limit()
            &&& is.len() <= final(cache).limit()
            &&& forall|i: int, j: int| 0 <= i < j < is.len() ==> (#[trigger] is[i]).0 != (
            #[trigger] is[j]).0
            &&& res is Ok ==> is.len() > 0 && is[0].0 == name@ && is.skip(1).filter(others)
                == is.skip(1)
            &&& res is Ok ==> is.len() == if there || was.len() == old(cache).limit() {
                was.len()
            } else {
                was.len() + 1
            }
            &&& res is Ok && !there && was.len() == old(cache).limit() ==> is.skip(1)
                == was.drop_last()
            &&& res is Ok && (there || was.len() < old(cache).limit()) ==> is.skip(1)
                == was.filter(others)
            &&& res is Err ==> is.filter(others) == was.filter(others) && is.len() == was.len()
        }),
{
    let (was, is) = (old(cache).entries(), final(cache).entries());
    let limit = old(cache).limit();
    old(cache).lemma_unique();
    final(cache).lemma_unique();
    lemma_touched_rest(was, name@);
    lemma_stored_rest(was, limit, name@, Some(source@));
    lemma_first_and_rest(is, name@);
}

/// Looking for an entry leaves the others as they are, and only they are behind it
/// then.
proof fn lemma_touched_rest<V>(entries: Seq<(Seq<char>, V)>, name: Seq<char>)
    requires
        names_unique(entries),
    ensures
        touched(entries, name).len() == entries.len(),
        without(touched(entries, name), name) == without(entries, name),
        holds(entries, name) ==> touched(entries, name).skip(1) == without(entries, name),
{
    lemma_without(entries, name);
    if holds(entries, name) {
        let first = (name, found(entries, name));
        lemma_without_front(first, without(entries, name));
        assert(touched(entries, name).skip(1) =~= without(entries, name));
    }
}

/// Storing an entry leaves the others as they are, but for the last where there is
/// no room for one more, and only they are behind it then.
proof fn lemma_stored_rest<V>(
    entries: Seq<(Seq<char>, V)>,
    limit: nat,
    name: Seq<char>,
    value: V,
)
    requires
        names_unique(entries),
        entries.len() <= limit,
        limit > 0,
    ensures
        ({
            let all = stored(entries, limit, name, value);
            &&& all.len() == if holds(entries, name) || entries.len() == limit {
                entries.len()
            } else {
                entries.len() + 1
            }
            &&& !holds(entries, name) && entries.len() == limit ==> all.skip(1)
                == entries.drop_last()
            &&& holds(entries, name) || entries.len() < limit ==> all.skip(1) == without(
                entries,
                name,
            )
        }),
{
    lemma_without(entries, name);
    let all = stored(entries, limit, name, value);
    if holds(entries, name) {
        assert(all.skip(1) =~= without(entries, name));
    } else if entries.len() == limit {
        assert(all.skip(1) =~= entries.drop_last());
    } else {
        assert(all.skip(1) =~= entries);
    }
}

/// Behind an entry that comes first only others are left.
proof fn lemma_first_and_rest<V>(entries: Seq<(Seq<char>, V)>, name: Seq<char>)
    requires
        names_unique(entries),
    ensures
        entries.len() > 0 && entries[0].0 == name ==> without(entries.skip(1), name)
            == entries.skip(1),
{
    if entries.len() > 0 && entries[0].0 == name {
        let rest = entries.skip(1);
        assert forall|i: int, j: int| 0 <= i < j < rest.len() implies rest[i].0 != rest[j].0 by {
            assert(entries[i + 1].0 != entries[j + 1].0);
        }
        if holds(rest, name) {
            let i = choose|i: int| 0 <= i < rest.len() && (#[trigger] rest[i]).0 == name;
            assert(entries[0].0 != entries[i + 1].0);
        }
        lemma_without(rest, name);
    }
}

/// Which function is had: one that was compiled from the source that was given, where
/// the script was not in the cache, and otherwise the one in the cache, whatever
/// source is given, unless the Lua state failed to give it back.
pub proof fn lemma_script_had(
    cache: &mut ThreadScriptCache,
    lua: &mlua::Lua,
    name: &str,
    source: &str,
    res: Result<mlua::Function, mlua::Error>,
    text: Option<Seq<char>>,
)
    requires
        old(cache).inv(),
        call_ensures(ThreadScriptCache::get_or_compile, (cache, lua, name, source), res),
    ensures
        !(exists|i: int| 0 <= i < old(cache).entries().len() && (#[trigger] old(
            cache,
        ).entries()[i]).0 == name@) && res is Ok ==> {
            &&& compiled_text(*lua, res->Ok_0) == Some(source@)
            &&& final(cache).entries()[0] == (name@, Some(source@))
        },
        old(cache).entries().contains((name@, text)) ==> {
            ||| exists|err: mlua::Error| #[trigger] recalled(*lua, text, Err(err))
            ||| res is Ok && compiled_text(*lua, res->Ok_0) == text && final(cache).entries()[0]
                == (name@, text)
        },
{
    let was = old(cache).entries();
    old(cache).lemma_unique();
    if was.contains((name@, text)) {
        lemma_found(was, name@, text);
    }
}

/// A script that was compiled is had again, in place of what another source would
/// compile to.
pub proof fn lemma_had_again(
    cache: &mut ThreadScriptCache,
    again: &mut ThreadScriptCache,
    lua: &mlua::Lua,
    name: &str,
    source: &str,
    other: &str,
    first: Result<mlua::Function, mlua::Error>,
    second: Result<mlua::Function, mlua::Error>,
)
    requires
        old(cache).inv(),
        call_ensures(ThreadScriptCache::get_or_compile, (cache, lua, name, source), first),
        first is Ok,
        *old(again) == *final(cache),
        call_ensures(ThreadScriptCache::get_or_compile, (again, lua, name, other), second),
    ensures
        ({
            let text = compiled_text(*lua, first->Ok_0);
            ||| exists|err: mlua::Error| #[trigger] recalled(*lua, text, Err(err))
            ||| second is Ok && compiled_text(*lua, second->Ok_0) == text && final(again).entries()
                == final(cache).entries()
        }),
{
    let text = compiled_text(*lua, first->Ok_0);
    let entries = final(cache).entries();
    old(cache).lemma_unique();
    final(cache).lemma_unique();
    let rest = entries.skip(1);
    assert(entries[0] == (name@, text));
    assert(entries =~= seq![entries[0]] + rest);
    lemma_used_last((name@, text), rest);
}

/// Where the function of a compiled script was kept, the script is the one used last,
/// and the others stay, but for the one used longest ago where there is no room.
/// Where it was not, the cache stays as it is and the failure is handed on.
pub proof fn lemma_compiled_kept(
    cache: &mut ThreadScriptCache,
    name: &str,
    func: mlua::Function,
    kept: Result<mlua::RegistryKey, mlua::Error>,
    res: Result<mlua::Function, mlua::Error>,
)
    requires
        old(cache).inv(),
        call_ensures(ThreadScriptCache::keep_compiled, (cache, name, func, kept), res),
    ensures
        ({
            let (was, is) = (old(cache).entries(), final(cache).entries());
            let others = |e: (Seq<char>, Option<Seq<char>>)| e.0 != name@;
            let there = exists|i: int| 0 <= i < was.len() && (#[trigger] was[i]).0 == name@;
            &&& final(cache).limit() == old(cache).limit()
            &&& kept is Err ==> res is Err && res->Err_0 == kept->Err_0 && is == was
            &&& kept is Ok ==> res is Ok && res->Ok_0 == func && is.len() > 0 && is[0] == (
                name@,
                kept_text(kept->Ok_0),
            )
            &&& kept is Ok && !there && was.len() == old(cache).limit() ==> is.skip(1)
                == was.drop_last()
            &&& kept is Ok && (there || was.len() < old(cache).limit()) ==> is.skip(1)
                == was.filter(others)
        }),
{
    old(cache).lemma_unique();
    if kept is Ok {
        lemma_stored_rest(
            old(cache).entries(),
            old(cache).limit(),
            name@,
            kept_text(kept->Ok_0),
        );
    }
}

} // verus!
