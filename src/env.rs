use std::rc::Rc;
use vstd::prelude::*;
use vstd::string::*;

use crate::types::{
    error, find_key, hash_get, is_err_msg, list, put, seq_items, share, RlErr, RlRet, RlVal,
};

verus! {

/// Index of a scope in a `Store`.
pub type Env = usize;

/// One scope: its own bindings, searched first to last, and the scope it is
/// nested in.
pub struct EnvStruct {
    pub data: Vec<(String, RlVal)>,
    pub outer: Option<Env>,
}

/// The shared mutable state of a session: every scope and every atom cell.
/// Scopes and atoms are named by their index here, so closures capture a scope
/// by index and clones of an atom share its cell.
pub struct Store {
    pub envs: Vec<EnvStruct>,
    pub atoms: Vec<RlVal>,
}

/// What a scope binds `k` to, if it binds it itself.
pub open spec fn scope_get(s: EnvStruct, k: Seq<char>) -> Option<RlVal> {
    hash_get(s.data@, k)
}

impl Store {
    /// Every scope is nested in an earlier one, so each chain ends.
    pub open spec fn wf(&self) -> bool {
        forall|i: int|
            0 <= i < self.envs@.len() ==> match (#[trigger] self.envs@[i]).outer {
                Some(o) => o < i,
                None => true,
            }
    }

    pub open spec fn has_env(&self, e: Env) -> bool {
        e < self.envs@.len()
    }

    /// The first scope on the chain from `e` outward that binds `k`.
    pub open spec fn find_spec(&self, e: Env, k: Seq<char>) -> Option<Env>
        decreases e,
    {
        if e >= self.envs@.len() {
            None
        } else if scope_get(self.envs@[e as int], k) is Some {
            Some(e)
        } else {
            match self.envs@[e as int].outer {
                Some(o) => if o < e {
                    self.find_spec(o, k)
                } else {
                    None
                },
                None => None,
            }
        }
    }

    /// What `k` resolves to from scope `e`.
    pub open spec fn lookup(&self, e: Env, k: Seq<char>) -> Option<RlVal> {
        match self.find_spec(e, k) {
            Some(f) => scope_get(self.envs@[f as int], k),
            None => None,
        }
    }

    /// An empty store.
    pub fn new() -> (r: Store)
        ensures
            r.wf(),
            r.envs@.len() == 0,
            r.atoms@.len() == 0,
    {
        Store { envs: Vec::new(), atoms: Vec::new() }
    }
}

/// Creates an empty scope nested in `outer`.
pub fn env_new(store: &mut Store, outer: Option<Env>) -> (r: Env)
    requires
        old(store).wf(),
        outer matches Some(o) ==> old(store).has_env(o),
    ensures
        final(store).wf(),
        r == old(store).envs@.len(),
        final(store).envs@.len() == r + 1,
        final(store).envs@.subrange(0, r as int) == old(store).envs@,
        final(store).envs@[r as int].outer == outer,
        final(store).envs@[r as int].data@.len() == 0,
        final(store).atoms == old(store).atoms,
{
    let r = store.envs.len();
    store.envs.push(EnvStruct { data: Vec::new(), outer });
    assert(store.envs@.subrange(0, r as int) =~= old(store).envs@);
    r
}

/// Binds `key` to `val` in scope `env` itself.
pub fn env_sets(store: &mut Store, env: Env, key: &str, val: RlVal)
    requires
        old(store).wf(),
        old(store).has_env(env),
    ensures
        final(store).wf(),
        final(store).envs@.len() == old(store).envs@.len(),
        final(store).atoms == old(store).atoms,
        final(store).envs@[env as int].outer == old(store).envs@[env as int].outer,
        forall|k: Seq<char>|
            #[trigger] scope_get(final(store).envs@[env as int], k) == if k == key@ {
                Some(val)
            } else {
                scope_get(old(store).envs@[env as int], k)
            },
        forall|i: int|
            0 <= i < old(store).envs@.len() && i != env ==> #[trigger] final(store).envs@[i]
                == old(store).envs@[i],
{
    let k = key.to_owned();
    let mut scope = EnvStruct { data: Vec::new(), outer: None };
    std::mem::swap(&mut scope, &mut store.envs[env]);
    put(&mut scope.data, k, val);
    std::mem::swap(&mut scope, &mut store.envs[env]);
}

/// Binds the symbol `key` to `val` in scope `env` itself and returns `val`.
pub fn env_set(store: &mut Store, env: Env, key: RlVal, val: RlVal) -> (r: RlRet)
    requires
        old(store).wf(),
        old(store).has_env(env),
    ensures
        final(store).wf(),
        final(store).envs@.len() == old(store).envs@.len(),
        final(store).atoms == old(store).atoms,
        match key {
            RlVal::Sym(s) => r == Ok::<RlVal, RlErr>(val)
                && final(store).envs@[env as int].outer == old(store).envs@[env as int].outer
                && (forall|k: Seq<char>|
                #[trigger] scope_get(final(store).envs@[env as int], k) == if k == s@ {
                    Some(val)
                } else {
                    scope_get(old(store).envs@[env as int], k)
                }) && (forall|i: int|
                0 <= i < old(store).envs@.len() && i != env ==> #[trigger] final(store).envs@[i]
                    == old(store).envs@[i]),
            _ => is_err_msg(r, "Env.set called with non-Str"@) && *final(store) == *old(store),
        },
{
    match key {
        RlVal::Sym(s) => {
            env_sets(store, env, s.as_str(), share(&val));
            Ok(val)
        },
        _ => error("Env.set called with non-Str"),
    }
}

/// The first scope from `env` outward that binds `key`.
pub fn env_find(store: &Store, env: Env, key: &str) -> (r: Option<Env>)
    requires
        store.wf(),
    ensures
        r == store.find_spec(env, key@),
{
    let k = key.to_owned();
    let mut e = env;
    loop
        invariant
            store.wf(),
            k@ == key@,
            store.find_spec(env, key@) == store.find_spec(e, key@),
        decreases e,
    {
        if e >= store.envs.len() {
            return None;
        }
        if find_key(&store.envs[e].data, &k).is_some() {
            return Some(e);
        }
        match store.envs[e].outer {
            Some(o) => {
                if o < e {
                    e = o;
                } else {
                    return None;
                }
            },
            None => {
                return None;
            },
        }
    }
}

proof fn lemma_find_spec(store: &Store, e: Env, k: Seq<char>)
    ensures
        store.find_spec(e, k) matches Some(f) ==> f < store.envs@.len() && scope_get(
            store.envs@[f as int],
            k,
        ) is Some,
    decreases e,
{
    if e < store.envs@.len() && scope_get(store.envs@[e as int], k) is None {
        if let Some(o) = store.envs@[e as int].outer {
            if o < e {
                lemma_find_spec(store, o, k);
            }
        }
    }
}

pub open spec fn not_found_msg(s: Seq<char>) -> Seq<char> {
    "'"@ + s + "' not found"@
}

/// The value that the symbol `key` resolves to from scope `env`.
pub fn env_get(store: &Store, env: Env, key: &RlVal) -> (r: RlRet)
    requires
        store.wf(),
    ensures
        match *key {
            RlVal::Sym(s) => match store.lookup(env, s@) {
                Some(v) => r == Ok::<RlVal, RlErr>(v),
                None => is_err_msg(r, not_found_msg(s@)),
            },
            _ => is_err_msg(r, "Env.get called with non-Str"@),
        },
{
    match key {
        RlVal::Sym(s) => match env_find(store, env, s.as_str()) {
            Some(e) => {
                proof {
                    lemma_find_spec(store, env, s@);
                }
                match find_key(&store.envs[e].data, s) {
                Some(j) => Ok(share(&store.envs[e].data[j].1)),
                None => {
                    proof {
                        reveal_strlit("'");
                        reveal_strlit("' not found");
                    }
                    let m = String::from_str("'").concat(s.as_str()).concat("' not found");
                    Err(RlErr::ErrString(m))
                },
            }
            },
            None => {
                proof {
                    reveal_strlit("'");
                    reveal_strlit("' not found");
                }
                let m = String::from_str("'").concat(s.as_str()).concat("' not found");
                Err(RlErr::ErrString(m))
            },
        },
        _ => error("Env.get called with non-Str"),
    }
}

/// The rest marker of a parameter list.
pub const REST_MARK: char = '&';

pub open spec fn is_amp(v: RlVal) -> bool {
    v is Sym && v->Sym_0@ == "&"@
}

/// Position of the first rest marker of `ps`, or its length if there is none.
pub open spec fn amp_pos(ps: Seq<RlVal>) -> int {
    if exists|i: int|
        0 <= i < ps.len() && is_amp(#[trigger] ps[i]) && forall|j: int|
            0 <= j < i ==> !is_amp(#[trigger] ps[j]) {
        choose|i: int|
            0 <= i < ps.len() && is_amp(#[trigger] ps[i]) && forall|j: int|
                0 <= j < i ==> !is_amp(#[trigger] ps[j])
    } else {
        ps.len() as int
    }
}

/// Whether binding `ps` against `nargs` arguments succeeds: every name before
/// the rest marker is a symbol with an argument, and a marker is followed by a
/// symbol.
pub open spec fn bind_ok(ps: Seq<RlVal>, nargs: int) -> bool {
    let p = amp_pos(ps);
    &&& forall|i: int| 0 <= i < p ==> (#[trigger] ps[i]) is Sym
    &&& p <= nargs
    &&& p < ps.len() ==> p + 1 < ps.len() && ps[p + 1] is Sym
}

/// The bindings made by the first `n` positional parameters.
pub open spec fn positional(ps: Seq<RlVal>, args: Seq<RlVal>, n: int) -> Map<Seq<char>, RlVal>
    decreases n,
{
    if n <= 0 {
        Map::empty()
    } else {
        positional(ps, args, n - 1).insert(ps[n - 1]->Sym_0@, args[n - 1])
    }
}

pub open spec fn map_get(m: Map<Seq<char>, RlVal>, k: Seq<char>) -> Option<RlVal> {
    if m.contains_key(k) {
        Some(m[k])
    } else {
        None
    }
}

/// The name that receives the remaining arguments, if `ps` has a rest marker.
pub open spec fn rest_name(ps: Seq<RlVal>) -> Option<Seq<char>> {
    let p = amp_pos(ps);
    if p < ps.len() {
        Some(ps[p + 1]->Sym_0@)
    } else {
        None
    }
}

/// The scope made by a successful bind: each positional name to its argument,
/// then the rest name to a list of the remaining arguments.
pub open spec fn bound_scope_ok(s: EnvStruct, ps: Seq<RlVal>, args: Seq<RlVal>) -> bool {
    let p = amp_pos(ps);
    &&& forall|k: Seq<char>|
        rest_name(ps) != Some(k) ==> #[trigger] scope_get(s, k) == map_get(positional(ps, args, p), k)
    &&& match rest_name(ps) {
        Some(r) => scope_get(s, r) matches Some(v) && v is List && seq_items(v) == args.subrange(
            p,
            args.len() as int,
        ) && crate::types::meta_of(v) == RlVal::Nil,
        None => true,
    }
}

proof fn lemma_amp_pos(ps: Seq<RlVal>, i: int)
    requires
        0 <= i <= ps.len(),
        forall|j: int| 0 <= j < i ==> !is_amp(#[trigger] ps[j]),
        i < ps.len() ==> is_amp(ps[i]),
    ensures
        amp_pos(ps) == i,
{
    if i < ps.len() {
        assert(0 <= i < ps.len() && is_amp(ps[i]) && forall|j: int|
            0 <= j < i ==> !is_amp(#[trigger] ps[j]));
        let c = amp_pos(ps);
        if c < i {
            assert(!is_amp(ps[c]));
        }
        if c > i {
            assert(!is_amp(ps[i]));
        }
    } else {
        if exists|c: int|
            0 <= c < ps.len() && is_amp(#[trigger] ps[c]) && forall|j: int|
                0 <= j < c ==> !is_amp(#[trigger] ps[j]) {
            let c = choose|c: int|
                0 <= c < ps.len() && is_amp(#[trigger] ps[c]) && forall|j: int|
                    0 <= j < c ==> !is_amp(#[trigger] ps[j]);
            assert(!is_amp(ps[c]));
        }
    }
}

/// The message of the first binding failure met from parameter `i` on, or
/// the empty text if binding from there on succeeds.
pub open spec fn bind_error_from(ps: Seq<RlVal>, nargs: int, i: int) -> Seq<char>
    decreases ps.len() - i,
{
    if i < 0 || i >= ps.len() {
        Seq::empty()
    } else if is_amp(ps[i]) {
        if i + 1 >= ps.len() {
            "rest marker without a name"@
        } else if !(ps[i + 1] is Sym) {
            "Env.set called with non-Str"@
        } else {
            Seq::empty()
        }
    } else if i >= nargs {
        "not enough arguments"@
    } else if !(ps[i] is Sym) {
        "Env.set called with non-Str"@
    } else {
        bind_error_from(ps, nargs, i + 1)
    }
}

/// The message with which binding the parameter list `mbinds` to `nargs`
/// arguments fails.
pub open spec fn bind_error(mbinds: RlVal, nargs: int) -> Seq<char> {
    if crate::types::is_sequential(mbinds) {
        bind_error_from(seq_items(mbinds), nargs, 0)
    } else {
        "env_bind binds not List/Vector"@
    }
}

/// Creates a scope nested in `outer` that binds the parameter list `mbinds`
/// (a list or vector of symbols, with an optional `&` rest marker) to `exprs`.
pub fn env_bind(store: &mut Store, outer: Option<Env>, mbinds: RlVal, exprs: Vec<RlVal>) -> (r:
    Result<Env, RlErr>)
    requires
        old(store).wf(),
        outer matches Some(o) ==> old(store).has_env(o),
    ensures
        final(store).wf(),
        final(store).atoms == old(store).atoms,
        final(store).envs@.len() >= old(store).envs@.len(),
        final(store).envs@.subrange(0, old(store).envs@.len() as int) == old(store).envs@,
        !crate::types::is_sequential(mbinds) ==> (r matches Err(RlErr::ErrString(m)) && m@ == "env_bind binds not List/Vector"@),
        crate::types::is_sequential(mbinds) ==> (r is Ok <==> bind_ok(seq_items(mbinds), exprs@.len() as int)),
        r is Err ==> (r matches Err(RlErr::ErrString(m)) && m@ == bind_error(mbinds, exprs@.len() as int)),
        r matches Ok(e) ==> e == old(store).envs@.len() && final(store).envs@.len() == e + 1
            && final(store).envs@[e as int].outer == outer && bound_scope_ok(
            final(store).envs@[e as int],
            seq_items(mbinds),
            exprs@,
        ),
{
    let ps: &Vec<RlVal> = match &mbinds {
        RlVal::List(l, _) | RlVal::Vector(l, _) => l,
        _ => {
            return Err(RlErr::ErrString("env_bind binds not List/Vector".to_owned()));
        },
    };
    let ghost ps_s = ps@;
    let ghost base = store.envs@.len();
    let env = env_new(store, outer);
    let mut i: usize = 0;
    while i < ps.len()
        invariant
            ps@ == ps_s,
            ps_s == seq_items(mbinds),
            store.wf(),
            store.atoms == old(store).atoms,
            env == base,
            base == old(store).envs@.len(),
            store.envs@.len() == base + 1,
            store.envs@.subrange(0, base as int) == old(store).envs@,
            store.envs@[env as int].outer == outer,
            i <= ps@.len(),
            i <= exprs@.len(),
            forall|j: int| 0 <= j < i ==> !is_amp(#[trigger] ps@[j]) && ps@[j] is Sym,
            bind_error_from(ps@, exprs@.len() as int, 0) == bind_error_from(ps@, exprs@.len() as int, i as int),
            forall|k: Seq<char>| #[trigger] scope_get(store.envs@[env as int], k) == map_get(
                positional(ps@, exprs@, i as int),
                k,
            ),
        decreases ps@.len() - i,
    {
        let b = &ps[i];
        let is_rest = match b {
            RlVal::Sym(s) => {
                proof {
                    reveal_strlit("&");
                }
                s.as_str().unicode_len() == 1 && s.as_str().get_char(0) == REST_MARK
            },
            _ => false,
        };
        proof {
            if b is Sym {
                if is_rest {
                    assert(b->Sym_0@ =~= "&"@);
                }
            }
        }
        if is_rest {
            proof {
                lemma_amp_pos(ps@, i as int);
            }
            if i + 1 >= ps.len() {
                proof {
                    reveal_strlit("rest marker without a name");
                }
                return Err(RlErr::ErrString("rest marker without a name".to_owned()));
            }
            let mut rest: Vec<RlVal> = Vec::new();
            let mut j: usize = i;
            while j < exprs.len()
                invariant
                    i <= j <= exprs@.len(),
                    rest@ == exprs@.subrange(i as int, j as int),
                decreases exprs@.len() - j,
            {
                rest.push(share(&exprs[j]));
                j = j + 1;
                assert(rest@ =~= exprs@.subrange(i as int, j as int));
            }
            let rv = list(rest);
            let ghost before = store.envs@[env as int];
            match env_set(store, env, share(&ps[i + 1]), rv) {
                Ok(_) => {},
                Err(e) => {
                    return Err(e);
                },
            }
            proof {
                assert(store.envs@.subrange(0, base as int) =~= old(store).envs@);
            }
            return Ok(env);
        }
        if i >= exprs.len() {
            proof {
                lemma_amp_pos_ge(ps@, i as int);
                assert(store.envs@.subrange(0, base as int) =~= old(store).envs@);
            }
            return Err(RlErr::ErrString("not enough arguments".to_owned()));
        }
        let ghost before_envs = store.envs@;
        match env_set(store, env, share(b), share(&exprs[i])) {
            Ok(_) => {
                assert(bind_error_from(ps@, exprs@.len() as int, i as int) == bind_error_from(
                    ps@,
                    exprs@.len() as int,
                    i + 1,
                ));
            },
            Err(e) => {
                proof {
                    lemma_amp_pos_ge(ps@, i as int);
                }
                return Err(e);
            },
        }
        i = i + 1;
        assert(store.envs@.subrange(0, base as int) =~= old(store).envs@);
    }
    proof {
        lemma_amp_pos(ps@, i as int);
    }
    Ok(env)
}

proof fn lemma_amp_pos_ge(ps: Seq<RlVal>, i: int)
    requires
        0 <= i < ps.len(),
        forall|j: int| 0 <= j < i ==> !is_amp(#[trigger] ps[j]),
        !is_amp(ps[i]),
    ensures
        amp_pos(ps) > i,
{
    if exists|c: int|
        0 <= c < ps.len() && is_amp(#[trigger] ps[c]) && forall|j: int|
            0 <= j < c ==> !is_amp(#[trigger] ps[j]) {
        let c = choose|c: int|
            0 <= c < ps.len() && is_amp(#[trigger] ps[c]) && forall|j: int|
                0 <= j < c ==> !is_amp(#[trigger] ps[j]);
        if c <= i {
            assert(!is_amp(ps[c]));
        }
    }
}

/// Scopes added after `p`, and bindings made in them, do not change what any
/// name resolves to from `p`: a binding in a child scope shadows without
/// altering the parent, before and after the child is dropped.
pub proof fn lemma_child_leaves_parent(s1: Store, s2: Store, p: Env, k: Seq<char>)
    requires
        s1.wf(),
        p < s1.envs@.len(),
        s2.envs@.len() >= s1.envs@.len(),
        s2.envs@.subrange(0, s1.envs@.len() as int) == s1.envs@,
    ensures
        s2.find_spec(p, k) == s1.find_spec(p, k),
        s2.lookup(p, k) == s1.lookup(p, k),
    decreases p,
{
    assert(s2.envs@[p as int] == s1.envs@[p as int]) by {
        assert(s2.envs@.subrange(0, s1.envs@.len() as int)[p as int] == s2.envs@[p as int]);
    }
    if scope_get(s1.envs@[p as int], k) is None {
        if let Some(o) = s1.envs@[p as int].outer {
            assert(o < p) by {
                assert(s1.envs@[p as int].outer == Some(o));
            }
            lemma_child_leaves_parent(s1, s2, o, k);
        }
    }
    lemma_find_spec(&s1, p, k);
    if let Some(f) = s1.find_spec(p, k) {
        lemma_find_within(&s1, p, k);
        assert(s2.envs@.subrange(0, s1.envs@.len() as int)[f as int] == s2.envs@[f as int]);
    }
}

proof fn lemma_find_within(store: &Store, e: Env, k: Seq<char>)
    requires
        store.wf(),
    ensures
        store.find_spec(e, k) matches Some(f) ==> f <= e,
    decreases e,
{
    if e < store.envs@.len() && scope_get(store.envs@[e as int], k) is None {
        if let Some(o) = store.envs@[e as int].outer {
            if o < e {
                lemma_find_within(store, o, k);
            }
        }
    }
}

} // verus!
