use std::rc::Rc;
use vstd::prelude::*;
use vstd::string::*;

use itertools::Itertools;

use crate::env::{env_bind, Env, Store};

verus! {

/// Every datum of the language.
#[derive(Clone, Debug)]
pub enum RlVal {
    Nil,
    Bool(bool),
    Int(i64),
    Str(String),
    Sym(String),
    List(Rc<Vec<RlVal>>, Rc<RlVal>),
    Vector(Rc<Vec<RlVal>>, Rc<RlVal>),
    /// Key/value pairs with pairwise distinct keys.
    Hash(Rc<Vec<(String, RlVal)>>, Rc<RlVal>),
    /// A built-in, named by its index in the host's table of built-ins.
    Func(usize, Rc<RlVal>),
    /// A user closure: body, parameter list, captured scope, macro flag, metadata.
    RlFunc { ast: Rc<RlVal>, env: Env, params: Rc<RlVal>, is_macro: bool, meta: Rc<RlVal> },
    /// A mutable cell, named by its index in a `Store`.
    Atom(usize),
}

/// The two kinds of error.
#[derive(Clone, Debug)]
pub enum RlErr {
    ErrString(String),
    ErrRlVal(RlVal),
}

pub type RlArgs = Vec<RlVal>;

pub type RlRet = Result<RlVal, RlErr>;

/// Returns a copy of `v`, sharing its backing storage.
pub fn share(v: &RlVal) -> (r: RlVal)
    ensures
        r == *v,
{
    match v {
        RlVal::Nil => RlVal::Nil,
        RlVal::Bool(b) => RlVal::Bool(*b),
        RlVal::Int(i) => RlVal::Int(*i),
        RlVal::Str(s) => RlVal::Str(s.clone()),
        RlVal::Sym(s) => RlVal::Sym(s.clone()),
        RlVal::List(l, m) => RlVal::List(Rc::clone(l), Rc::clone(m)),
        RlVal::Vector(l, m) => RlVal::Vector(Rc::clone(l), Rc::clone(m)),
        RlVal::Hash(h, m) => RlVal::Hash(Rc::clone(h), Rc::clone(m)),
        RlVal::Func(f, m) => RlVal::Func(*f, Rc::clone(m)),
        RlVal::RlFunc { ast, env, params, is_macro, meta } => RlVal::RlFunc {
            ast: Rc::clone(ast),
            env: *env,
            params: Rc::clone(params),
            is_macro: *is_macro,
            meta: Rc::clone(meta),
        },
        RlVal::Atom(a) => RlVal::Atom(*a),
    }
}


/// Index of the first pair of `pairs` whose key is `k`, or -1.
pub open spec fn key_index(pairs: Seq<(String, RlVal)>, k: Seq<char>) -> int
    decreases pairs.len(),
{
    if pairs.len() == 0 {
        -1
    } else {
        let r = key_index(pairs.drop_last(), k);
        if r >= 0 {
            r
        } else if pairs.last().0@ == k {
            pairs.len() - 1
        } else {
            -1
        }
    }
}

/// The elements of a list or a vector.
pub open spec fn seq_items(v: RlVal) -> Seq<RlVal> {
    match v {
        RlVal::List(l, _) => l@,
        RlVal::Vector(l, _) => l@,
        _ => Seq::empty(),
    }
}

pub open spec fn is_sequential(v: RlVal) -> bool {
    v is List || v is Vector
}

/// Structural equality: lists and vectors compare elementwise with each other,
/// hashes by their key/value sets, metadata is ignored, and built-ins, closures
/// and atoms equal nothing.
pub open spec fn val_eq(a: RlVal, b: RlVal) -> bool
    decreases a,
{
    match a {
        RlVal::Nil => b is Nil,
        RlVal::Bool(x) => b is Bool && b->Bool_0 == x,
        RlVal::Int(x) => b is Int && b->Int_0 == x,
        RlVal::Str(x) => b is Str && b->Str_0@ == x@,
        RlVal::Sym(x) => b is Sym && b->Sym_0@ == x@,
        RlVal::List(x, _) => is_sequential(b) && x@.len() == seq_items(b).len() && forall|i: int|
            0 <= i < x@.len() ==> val_eq(#[trigger] x@[i], seq_items(b)[i]),
        RlVal::Vector(x, _) => is_sequential(b) && x@.len() == seq_items(b).len() && forall|i: int|
            0 <= i < x@.len() ==> val_eq(#[trigger] x@[i], seq_items(b)[i]),
        RlVal::Hash(x, _) => match b {
            RlVal::Hash(y, _) => x@.len() == y@.len() && (forall|i: int|
                0 <= i < x@.len() ==> {
                    let j = key_index(y@, (#[trigger] x@[i]).0@);
                    0 <= j && val_eq(x@[i].1, y@[j].1)
                }) && forall|j: int| 0 <= j < y@.len() ==> key_index(x@, (#[trigger] y@[j]).0@) >= 0,
            _ => false,
        },
        _ => false,
    }
}

fn seq_equal(x: &Vec<RlVal>, y: &Vec<RlVal>, Ghost(whole): Ghost<RlVal>) -> (r: bool)
    requires
        forall|i: int| 0 <= i < x@.len() ==> decreases_to!(whole => #[trigger] x@[i]),
    ensures
        r == (x@.len() == y@.len() && forall|i: int|
            0 <= i < x@.len() ==> val_eq(#[trigger] x@[i], y@[i])),
    decreases whole, 0int,
{
    if x.len() != y.len() {
        return false;
    }
    let mut i: usize = 0;
    while i < x.len()
        invariant
            x@.len() == y@.len(),
            i <= x@.len(),
            forall|k: int| 0 <= k < i ==> val_eq(#[trigger] x@[k], y@[k]),
            forall|i: int| 0 <= i < x@.len() ==> decreases_to!(whole => #[trigger] x@[i]),
        decreases x@.len() - i,
    {
        assert(decreases_to!(whole => x@[i as int]));
        if !val_equal(&x[i], &y[i]) {
            return false;
        }
        i = i + 1;
    }
    true
}

/// Finds the first pair of `pairs` whose key is `k`.
pub fn find_key(pairs: &Vec<(String, RlVal)>, k: &String) -> (r: Option<usize>)
    ensures
        match r {
            Some(j) => key_index(pairs@, k@) == j,
            None => key_index(pairs@, k@) == -1,
        },
        -1 <= key_index(pairs@, k@) < pairs@.len(),
{
    proof {
        lemma_key_index_range(pairs@, k@);
    }
    let mut n: usize = 0;
    while n < pairs.len()
        invariant
            n <= pairs@.len(),
            key_index(pairs@.subrange(0, n as int), k@) == -1,
        decreases pairs@.len() - n,
    {
        assert(pairs@.subrange(0, n + 1).drop_last() == pairs@.subrange(0, n as int));
        if pairs[n].0 == *k {
            proof {
                lemma_key_index_prefix(pairs@, k@, n + 1);
            }
            return Some(n);
        }
        n = n + 1;
    }
    assert(pairs@.subrange(0, n as int) == pairs@);
    None
}

pub proof fn lemma_key_index_range(pairs: Seq<(String, RlVal)>, k: Seq<char>)
    ensures
        -1 <= key_index(pairs, k) < pairs.len(),
        key_index(pairs, k) >= 0 ==> pairs[key_index(pairs, k)].0@ == k,
    decreases pairs.len(),
{
    if pairs.len() > 0 {
        lemma_key_index_range(pairs.drop_last(), k);
    }
}

/// `key_index` finds the first pair with the key, and -1 exactly when none has it.
pub proof fn lemma_key_index_first(pairs: Seq<(String, RlVal)>, k: Seq<char>)
    ensures
        (key_index(pairs, k) == -1) == (forall|j: int| 0 <= j < pairs.len() ==> (#[trigger] pairs[j]).0@ != k),
        key_index(pairs, k) >= 0 ==> forall|j: int| 0 <= j < key_index(pairs, k) ==> (#[trigger] pairs[j]).0@ != k,
    decreases pairs.len(),
{
    lemma_key_index_range(pairs, k);
    if pairs.len() > 0 {
        let d = pairs.drop_last();
        lemma_key_index_first(d, k);
        assert forall|j: int| 0 <= j < d.len() implies #[trigger] d[j] == pairs[j] by {}
        if key_index(pairs, k) >= 0 {
            assert forall|j: int| 0 <= j < key_index(pairs, k) implies (#[trigger] pairs[j]).0@ != k by {
                assert(d[j] == pairs[j]);
            }
        }
        if key_index(pairs, k) == -1 {
            assert forall|j: int| 0 <= j < pairs.len() implies (#[trigger] pairs[j]).0@ != k by {
                if j < d.len() {
                    assert(d[j] == pairs[j]);
                }
            }
        }
    }
}

/// Whether no two pairs share a key.
pub open spec fn keys_unique(pairs: Seq<(String, RlVal)>) -> bool {
    forall|i: int, j: int|
        0 <= i < j < pairs.len() ==> (#[trigger] pairs[i]).0@ != (#[trigger] pairs[j]).0@
}

/// What the pairs map `k` to: the value of the first pair with that key.
pub open spec fn hash_get(pairs: Seq<(String, RlVal)>, k: Seq<char>) -> Option<RlVal> {
    let j = key_index(pairs, k);
    if j >= 0 {
        Some(pairs[j].1)
    } else {
        None
    }
}

/// Maps `k` to `v` in `pairs`, replacing the value of an existing key.
pub fn put(pairs: &mut Vec<(String, RlVal)>, k: String, v: RlVal)
    ensures
        forall|q: Seq<char>|
            #[trigger] hash_get(final(pairs)@, q) == if q == k@ {
                Some(v)
            } else {
                hash_get(old(pairs)@, q)
            },
        keys_unique(old(pairs)@) ==> keys_unique(final(pairs)@),
{
    let ghost before = pairs@;
    let ghost kk = k;
    proof {
        lemma_key_index_range(before, k@);
        lemma_key_index_first(before, k@);
    }
    match find_key(pairs, &k) {
        Some(j) => {
            pairs.set(j, (k, v));
            assert forall|q: Seq<char>| #[trigger] hash_get(pairs@, q) == if q == kk@ {
                Some(v)
            } else {
                hash_get(before, q)
            } by {
                lemma_key_index_keep(before, j as int, kk, v, q);
                lemma_key_index_range(before, q);
            }
            assert forall|a: int, b: int|
                keys_unique(before) && 0 <= a < b < pairs@.len() implies (#[trigger] pairs@[a]).0@
                != (#[trigger] pairs@[b]).0@ by {
                assert(before[a].0@ != before[b].0@);
            }
        },
        None => {
            pairs.push((k, v));
            assert(pairs@.drop_last() == before);
            assert forall|q: Seq<char>| #[trigger] hash_get(pairs@, q) == if q == kk@ {
                Some(v)
            } else {
                hash_get(before, q)
            } by {
                lemma_key_index_range(before, q);
            }
            assert forall|a: int, b: int|
                keys_unique(before) && 0 <= a < b < pairs@.len() implies (#[trigger] pairs@[a]).0@
                != (#[trigger] pairs@[b]).0@ by {
                if b == before.len() {
                    assert(before[a] == pairs@[a]);
                } else {
                    assert(before[a].0@ != before[b].0@);
                }
            }
        },
    }
}

/// With distinct keys, the pair that holds a key is the one `hash_get` reads.
pub proof fn lemma_unique_get(pairs: Seq<(String, RlVal)>, j: int)
    requires
        keys_unique(pairs),
        0 <= j < pairs.len(),
    ensures
        key_index(pairs, pairs[j].0@) == j,
        hash_get(pairs, pairs[j].0@) == Some(pairs[j].1),
{
    let k = pairs[j].0@;
    lemma_key_index_first(pairs, k);
    lemma_key_index_range(pairs, k);
    let f = key_index(pairs, k);
    if f != j {
        if f < j {
            assert(pairs[f].0@ != pairs[j].0@);
        } else {
            assert(pairs[j].0@ != k);
        }
    }
}

/// Removes the pair whose key is `k`, if there is one.
pub fn remove_key(pairs: &mut Vec<(String, RlVal)>, k: &String)
    ensures
        keys_unique(old(pairs)@) ==> keys_unique(final(pairs)@),
        keys_unique(old(pairs)@) ==> forall|q: Seq<char>|
            #[trigger] hash_get(final(pairs)@, q) == if q == k@ {
                None
            } else {
                hash_get(old(pairs)@, q)
            },
{
    let ghost before = pairs@;
    proof {
        lemma_key_index_first(before, k@);
        lemma_key_index_range(before, k@);
    }
    match find_key(pairs, k) {
        Some(j) => {
            pairs.remove(j);
            let ghost after = pairs@;
            assert(after == before.remove(j as int));
            proof {
                if keys_unique(before) {
                    assert forall|a: int, b: int|
                        0 <= a < b < after.len() implies (#[trigger] after[a]).0@ != (#[trigger] after[b]).0@ by {
                        let a0 = if a < j { a } else { a + 1 };
                        let b0 = if b < j { b } else { b + 1 };
                        assert(before[a0].0@ != before[b0].0@);
                    }
                    assert forall|q: Seq<char>| #[trigger] hash_get(after, q) == if q == k@ {
                        None
                    } else {
                        hash_get(before, q)
                    } by {
                        lemma_key_index_first(after, q);
                        lemma_key_index_first(before, q);
                        if q == k@ {
                            assert forall|t: int| 0 <= t < after.len() implies (#[trigger] after[t]).0@ != q by {
                                let t0 = if t < j { t } else { t + 1 };
                                assert(before[t0].0@ != before[j as int].0@);
                            }
                        } else if key_index(before, q) >= 0 {
                            let i0 = key_index(before, q);
                            lemma_key_index_range(before, q);
                            let i1 = if i0 < j { i0 } else { i0 - 1 };
                            assert(after[i1] == before[i0]);
                            lemma_unique_get(after, i1);
                            lemma_unique_get(before, i0);
                        } else {
                            assert forall|t: int| 0 <= t < after.len() implies (#[trigger] after[t]).0@ != q by {
                                let t0 = if t < j { t } else { t + 1 };
                                assert(after[t] == before[t0]);
                            }
                        }
                    }
                }
            }
        },
        None => {},
    }
}

/// Replacing the value of a pair keeps every key's first index.
proof fn lemma_key_index_keep(pairs: Seq<(String, RlVal)>, j: int, s: String, v: RlVal, q: Seq<char>)
    requires
        0 <= j < pairs.len(),
        s@ == pairs[j].0@,
    ensures
        key_index(pairs.update(j, (s, v)), q) == key_index(pairs, q),
    decreases pairs.len(),
{
    let p2 = pairs.update(j, (s, v));
    if j < pairs.len() - 1 {
        assert(p2.drop_last() == pairs.drop_last().update(j, (s, v)));
        lemma_key_index_keep(pairs.drop_last(), j, s, v, q);
    } else {
        assert(p2.drop_last() == pairs.drop_last());
    }
}

/// A match found in a prefix is the first match of the whole sequence.
proof fn lemma_key_index_prefix(pairs: Seq<(String, RlVal)>, k: Seq<char>, n: int)
    requires
        0 <= n <= pairs.len(),
        key_index(pairs.subrange(0, n), k) >= 0,
    ensures
        key_index(pairs, k) == key_index(pairs.subrange(0, n), k),
    decreases pairs.len() - n,
{
    if n < pairs.len() {
        assert(pairs.subrange(0, n + 1).drop_last() == pairs.subrange(0, n));
        lemma_key_index_prefix(pairs, k, n + 1);
    } else {
        assert(pairs.subrange(0, n) == pairs);
    }
}

fn hash_equal(x: &Vec<(String, RlVal)>, y: &Vec<(String, RlVal)>, Ghost(whole): Ghost<RlVal>) -> (r:
    bool)
    requires
        forall|i: int| 0 <= i < x@.len() ==> decreases_to!(whole => (#[trigger] x@[i]).1),
    ensures
        r == (x@.len() == y@.len() && (forall|i: int|
            0 <= i < x@.len() ==> {
                let j = key_index(y@, (#[trigger] x@[i]).0@);
                0 <= j && val_eq(x@[i].1, y@[j].1)
            }) && forall|j: int| 0 <= j < y@.len() ==> key_index(x@, (#[trigger] y@[j]).0@) >= 0),
    decreases whole, 0int,
{
    if x.len() != y.len() {
        return false;
    }
    let mut i: usize = 0;
    while i < x.len()
        invariant
            x@.len() == y@.len(),
            i <= x@.len(),
            forall|k: int|
                0 <= k < i ==> {
                    let j = key_index(y@, (#[trigger] x@[k]).0@);
                    0 <= j && val_eq(x@[k].1, y@[j].1)
                },
            forall|i: int| 0 <= i < x@.len() ==> decreases_to!(whole => (#[trigger] x@[i]).1),
        decreases x@.len() - i,
    {
        assert(decreases_to!(whole => x@[i as int].1));
        match find_key(y, &x[i].0) {
            Some(j) => {
                if !val_equal(&x[i].1, &y[j].1) {
                    return false;
                }
            },
            None => {
                return false;
            },
        }
        i = i + 1;
    }
    let mut n: usize = 0;
    while n < y.len()
        invariant
            x@.len() == y@.len(),
            forall|k: int|
                0 <= k < x@.len() ==> {
                    let j = key_index(y@, (#[trigger] x@[k]).0@);
                    0 <= j && val_eq(x@[k].1, y@[j].1)
                },
            n <= y@.len(),
            forall|k: int| 0 <= k < n ==> key_index(x@, (#[trigger] y@[k]).0@) >= 0,
        decreases y@.len() - n,
    {
        if find_key(x, &y[n].0).is_none() {
            return false;
        }
        n = n + 1;
    }
    true
}

/// Executable structural equality.
pub fn val_equal(a: &RlVal, b: &RlVal) -> (r: bool)
    ensures
        r == val_eq(*a, *b),
    decreases *a, 1int,
{
    match (a, b) {
        (RlVal::Nil, RlVal::Nil) => true,
        (RlVal::Bool(x), RlVal::Bool(y)) => *x == *y,
        (RlVal::Int(x), RlVal::Int(y)) => *x == *y,
        (RlVal::Str(x), RlVal::Str(y)) => *x == *y,
        (RlVal::Sym(x), RlVal::Sym(y)) => *x == *y,
        (RlVal::List(x, _), RlVal::List(y, _))
        | (RlVal::List(x, _), RlVal::Vector(y, _))
        | (RlVal::Vector(x, _), RlVal::List(y, _))
        | (RlVal::Vector(x, _), RlVal::Vector(y, _)) => {
            let x: &Vec<RlVal> = x;
            let y: &Vec<RlVal> = y;
            seq_equal(x, y, Ghost(*a))
        },
        (RlVal::Hash(x, _), RlVal::Hash(y, _)) => {
            let x: &Vec<(String, RlVal)> = x;
            let y: &Vec<(String, RlVal)> = y;
            hash_equal(x, y, Ghost(*a))
        },
        _ => false,
    }
}

impl PartialEq for RlVal {
    fn eq(&self, other: &RlVal) -> bool {
        val_equal(self, other)
    }
}

impl vstd::std_specs::cmp::PartialEqSpecImpl for RlVal {
    open spec fn obeys_eq_spec() -> bool {
        true
    }

    open spec fn eq_spec(&self, other: &RlVal) -> bool {
        val_eq(*self, *other)
    }
}

/// The reserved first character of a keyword.
pub const KEYWORD_MARK: char = '\u{29e}';

pub open spec fn is_keyword_text(s: Seq<char>) -> bool {
    s.len() > 0 && s[0] == KEYWORD_MARK
}

pub open spec fn is_err_msg(r: RlRet, msg: Seq<char>) -> bool {
    r matches Err(RlErr::ErrString(m)) && m@ == msg
}

/// Metadata slot of the variants that carry one.
pub open spec fn has_meta(v: RlVal) -> bool {
    v is List || v is Vector || v is Hash || v is Func || v is RlFunc
}

pub open spec fn meta_of(v: RlVal) -> RlVal {
    match v {
        RlVal::List(_, m) => *m,
        RlVal::Vector(_, m) => *m,
        RlVal::Hash(_, m) => *m,
        RlVal::Func(_, m) => *m,
        RlVal::RlFunc { meta, .. } => *meta,
        _ => RlVal::Nil,
    }
}

/// `v` with its metadata slot replaced by `m`.
pub open spec fn replace_meta(v: RlVal, m: RlVal) -> RlVal {
    match v {
        RlVal::List(l, _) => RlVal::List(l, Rc::new(m)),
        RlVal::Vector(l, _) => RlVal::Vector(l, Rc::new(m)),
        RlVal::Hash(h, _) => RlVal::Hash(h, Rc::new(m)),
        RlVal::Func(f, _) => RlVal::Func(f, Rc::new(m)),
        RlVal::RlFunc { ast, env, params, is_macro, .. } => RlVal::RlFunc {
            ast,
            env,
            params,
            is_macro,
            meta: Rc::new(m),
        },
        _ => v,
    }
}

/// A plain message error.
pub fn error(s: &str) -> (r: RlRet)
    ensures
        is_err_msg(r, s@),
{
    Err(RlErr::ErrString(s.to_owned()))
}

/// A built-in with empty metadata.
pub fn func(f: usize) -> (r: RlVal)
    ensures
        r == RlVal::Func(f, Rc::new(RlVal::Nil)),
{
    RlVal::Func(f, Rc::new(RlVal::Nil))
}

/// A list with empty metadata.
pub fn list(items: Vec<RlVal>) -> (r: RlVal)
    ensures
        r is List,
        seq_items(r) == items@,
        meta_of(r) == RlVal::Nil,
{
    RlVal::List(Rc::new(items), Rc::new(RlVal::Nil))
}

/// A vector with empty metadata.
pub fn vector(items: Vec<RlVal>) -> (r: RlVal)
    ensures
        r is Vector,
        seq_items(r) == items@,
        meta_of(r) == RlVal::Nil,
{
    RlVal::Vector(Rc::new(items), Rc::new(RlVal::Nil))
}

impl RlVal {
    /// The keyword form of a string: the string itself if it already is one.
    pub fn keyword(&self) -> (r: RlRet)
        ensures
            match *self {
                RlVal::Str(s) => r matches Ok(RlVal::Str(k)) && is_keyword_text(k@) && (if is_keyword_text(s@) {
                    k@ == s@
                } else {
                    k@ == seq![KEYWORD_MARK] + s@
                }),
                _ => is_err_msg(r, "invalid type for keyword"@),
            },
    {
        match self {
            RlVal::Str(s) => {
                if self.keyword_q() {
                    Ok(RlVal::Str(s.clone()))
                } else {
                    proof {
                        reveal_strlit("\u{29e}");
                    }
                    let k = String::from_str("\u{29e}").concat(s.as_str());
                    Ok(RlVal::Str(k))
                }
            },
            _ => error("invalid type for keyword"),
        }
    }

    /// Whether the value is a keyword.
    pub fn keyword_q(&self) -> (r: bool)
        ensures
            r == (self is Str && is_keyword_text(self->Str_0@)),
    {
        match self {
            RlVal::Str(s) => {
                let t = s.as_str();
                t.unicode_len() > 0 && t.get_char(0) == KEYWORD_MARK
            },
            _ => false,
        }
    }

    /// Whether a list or vector has no elements; nil counts as empty.
    pub fn empty_q(&self) -> (r: RlRet)
        ensures
            if is_sequential(*self) {
                r == Ok::<RlVal, RlErr>(RlVal::Bool(seq_items(*self).len() == 0))
            } else if self is Nil {
                r == Ok::<RlVal, RlErr>(RlVal::Bool(true))
            } else {
                is_err_msg(r, "invalid type for empty?"@)
            },
    {
        match self {
            RlVal::List(l, _) | RlVal::Vector(l, _) => Ok(RlVal::Bool(l.len() == 0)),
            RlVal::Nil => Ok(RlVal::Bool(true)),
            _ => error("invalid type for empty?"),
        }
    }

    /// Number of elements of a list or vector; nil counts as empty.
    pub fn count(&self) -> (r: RlRet)
        requires
            seq_items(*self).len() <= i64::MAX,
        ensures
            if is_sequential(*self) {
                r == Ok::<RlVal, RlErr>(RlVal::Int(seq_items(*self).len() as i64))
            } else if self is Nil {
                r == Ok::<RlVal, RlErr>(RlVal::Int(0))
            } else {
                is_err_msg(r, "invalid type for count"@)
            },
    {
        match self {
            RlVal::List(l, _) | RlVal::Vector(l, _) => Ok(RlVal::Int(l.len() as i64)),
            RlVal::Nil => Ok(RlVal::Int(0)),
            _ => error("invalid type for count"),
        }
    }

    /// The metadata of a value that carries it.
    pub fn get_meta(&self) -> (r: RlRet)
        ensures
            if has_meta(*self) {
                r == Ok::<RlVal, RlErr>(meta_of(*self))
            } else {
                is_err_msg(r, "meta not supported by type"@)
            },
    {
        match self {
            RlVal::List(_, m) | RlVal::Vector(_, m) | RlVal::Hash(_, m) | RlVal::Func(_, m) => Ok(
                share(m),
            ),
            RlVal::RlFunc { meta, .. } => Ok(share(meta)),
            _ => error("meta not supported by type"),
        }
    }

    /// A copy of the value, sharing its payload, with new metadata. The
    /// receiver is left as it was.
    pub fn with_meta(&self, new_meta: &RlVal) -> (r: RlRet)
        ensures
            if has_meta(*self) {
                r == Ok::<RlVal, RlErr>(replace_meta(*self, *new_meta))
            } else {
                is_err_msg(r, "with-meta not supported by type"@)
            },
    {
        let m = Rc::new(share(new_meta));
        match self {
            RlVal::List(l, _) => Ok(RlVal::List(Rc::clone(l), m)),
            RlVal::Vector(l, _) => Ok(RlVal::Vector(Rc::clone(l), m)),
            RlVal::Hash(h, _) => Ok(RlVal::Hash(Rc::clone(h), m)),
            RlVal::Func(f, _) => Ok(RlVal::Func(*f, m)),
            RlVal::RlFunc { ast, env, params, is_macro, .. } => Ok(
                RlVal::RlFunc {
                    ast: Rc::clone(ast),
                    env: *env,
                    params: Rc::clone(params),
                    is_macro: *is_macro,
                    meta: m,
                },
            ),
            _ => error("with-meta not supported by type"),
        }
    }
}

/// What applying a function asks the evaluator to do next.
pub enum Call {
    /// Run the built-in with this index on these arguments.
    Builtin(usize, RlArgs),
    /// Evaluate this body in this freshly bound scope.
    Eval(RlVal, Env),
}

/// A new atom holding `rv`.
pub fn atom(store: &mut Store, rv: &RlVal) -> (r: RlVal)
    requires
        old(store).wf(),
    ensures
        final(store).wf(),
        r == RlVal::Atom(old(store).atoms@.len() as usize),
        final(store).atoms@ == old(store).atoms@.push(*rv),
        final(store).envs == old(store).envs,
{
    let a = store.atoms.len();
    store.atoms.push(share(rv));
    RlVal::Atom(a)
}

/// Whether an atom value names a cell of `store`.
pub open spec fn atom_in(v: RlVal, store: Store) -> bool {
    v matches RlVal::Atom(a) ==> a < store.atoms@.len()
}

impl RlVal {
    /// Applies a built-in or a closure to `args`. A closure's parameters are
    /// bound in a new scope nested in the one it captured.
    pub fn apply(&self, store: &mut Store, args: RlArgs) -> (r: Result<Call, RlErr>)
        requires
            old(store).wf(),
            *self matches RlVal::RlFunc { env, .. } ==> old(store).has_env(env),
        ensures
            final(store).wf(),
            final(store).atoms == old(store).atoms,
            final(store).envs@.subrange(0, old(store).envs@.len() as int) == old(store).envs@,
            match *self {
                RlVal::Func(f, _) => r == Ok::<Call, RlErr>(Call::Builtin(f, args))
                    && *final(store) == *old(store),
                RlVal::RlFunc { ast, env, params, .. } => match r {
                    Ok(c) => c matches Call::Eval(body, e) && body == *ast
                        && e == old(store).envs@.len() && final(store).envs@[e as int].outer
                        == Some(env) && crate::env::bound_scope_ok(
                        final(store).envs@[e as int],
                        seq_items(*params),
                        args@,
                    ) && is_sequential(*params) && crate::env::bind_ok(
                        seq_items(*params),
                        args@.len() as int,
                    ),
                    Err(e) => !(is_sequential(*params) && crate::env::bind_ok(
                        seq_items(*params),
                        args@.len() as int,
                    )) && (e matches RlErr::ErrString(m) && m@ == crate::env::bind_error(
                        *params,
                        args@.len() as int,
                    )),
                },
                _ => r matches Err(RlErr::ErrString(m)) && m@ == "attempt to call non-function"@
                    && *final(store) == *old(store),
            },
    {
        match self {
            RlVal::Func(f, _) => Ok(Call::Builtin(*f, args)),
            RlVal::RlFunc { ast, env, params, .. } => {
                let p: &RlVal = params;
                let fn_env = match env_bind(store, Some(*env), share(p), args) {
                    Ok(e) => e,
                    Err(e) => {
                        return Err(e);
                    },
                };
                let a: &RlVal = ast;
                Ok(Call::Eval(share(a), fn_env))
            },
            _ => Err(RlErr::ErrString("attempt to call non-function".to_owned())),
        }
    }

    /// The value held by an atom.
    pub fn deref(&self, store: &Store) -> (r: RlRet)
        requires
            atom_in(*self, *store),
        ensures
            match *self {
                RlVal::Atom(a) => r == Ok::<RlVal, RlErr>(store.atoms@[a as int]),
                _ => is_err_msg(r, "attempt to deref a non-Atom"@),
            },
    {
        match self {
            RlVal::Atom(a) => Ok(share(&store.atoms[*a])),
            _ => error("attempt to deref a non-Atom"),
        }
    }

    /// Stores `new` in an atom and returns it.
    pub fn reset_bang(&self, store: &mut Store, new: &RlVal) -> (r: RlRet)
        requires
            atom_in(*self, *old(store)),
        ensures
            final(store).envs == old(store).envs,
            match *self {
                RlVal::Atom(a) => r == Ok::<RlVal, RlErr>(*new) && final(store).atoms@
                    == old(store).atoms@.update(a as int, *new),
                _ => is_err_msg(r, "attempt to reset! a non-Atom"@) && *final(store) == *old(store),
            },
    {
        match self {
            RlVal::Atom(a) => {
                store.atoms.set(*a, share(new));
                Ok(share(new))
            },
            _ => error("attempt to reset! a non-Atom"),
        }
    }

    /// The call that `swap!` makes: the function `args[0]` applied to the
    /// atom's value followed by the rest of `args`.
    pub fn swap_call(&self, store: &Store, args: &RlArgs) -> (r: Result<(RlVal, RlArgs), RlErr>)
        requires
            atom_in(*self, *store),
        ensures
            match *self {
                RlVal::Atom(a) => if args@.len() == 0 {
                    r matches Err(RlErr::ErrString(m)) && m@ == "swap! needs a function"@
                } else {
                    r matches Ok((f, fargs)) && f == args@[0] && fargs@ == seq![store.atoms@[a as int]]
                        + args@.subrange(1, args@.len() as int)
                },
                _ => r matches Err(RlErr::ErrString(m)) && m@ == "attempt to swap! a non-Atom"@,
            },
    {
        match self {
            RlVal::Atom(a) => {
                if args.len() == 0 {
                    return Err(RlErr::ErrString("swap! needs a function".to_owned()));
                }
                let mut fargs: Vec<RlVal> = Vec::new();
                fargs.push(share(&store.atoms[*a]));
                let mut i: usize = 1;
                while i < args.len()
                    invariant
                        1 <= i <= args@.len(),
                        *a < store.atoms@.len(),
                        fargs@ == seq![store.atoms@[*a as int]] + args@.subrange(1, i as int),
                    decreases args@.len() - i,
                {
                    fargs.push(share(&args[i]));
                    i = i + 1;
                    assert(fargs@ =~= seq![store.atoms@[*a as int]] + args@.subrange(1, i as int));
                }
                Ok((share(&args[0]), fargs))
            },
            _ => Err(RlErr::ErrString("attempt to swap! a non-Atom".to_owned())),
        }
    }

    /// Completes `swap!` with the outcome of the call that `swap_call` built:
    /// a value is stored and returned; an error leaves the atom as it was.
    pub fn swap_bang(&self, store: &mut Store, outcome: RlRet) -> (r: RlRet)
        requires
            atom_in(*self, *old(store)),
        ensures
            final(store).envs == old(store).envs,
            match *self {
                RlVal::Atom(a) => r == outcome && match outcome {
                    Ok(v) => final(store).atoms@ == old(store).atoms@.update(a as int, v),
                    Err(_) => *final(store) == *old(store),
                },
                _ => is_err_msg(r, "attempt to swap! a non-Atom"@) && *final(store) == *old(store),
            },
    {
        match self {
            RlVal::Atom(a) => match outcome {
                Ok(v) => {
                    store.atoms.set(*a, share(&v));
                    Ok(v)
                },
                Err(e) => Err(e),
            },
            _ => error("attempt to swap! a non-Atom"),
        }
    }
}

/// Relies on itertools' `Itertools::tuples`: the items taken two at a time,
/// in order, with a last odd item left out.
#[verifier::external_body]
fn pairs_of(kvs: RlArgs) -> (r: Vec<(RlVal, RlVal)>)
    ensures
        r@.len() == kvs@.len() / 2,
        forall|i: int| 0 <= i < r@.len() ==> #[trigger] r@[i] == (kvs@[2 * i], kvs@[2 * i + 1]),
{
    kvs.into_iter().tuples().collect()
}

/// Whether a flat key/value list can build a hash: even length, and a string
/// or keyword at each even index.
pub open spec fn kvs_ok(kvs: Seq<RlVal>) -> bool {
    kvs.len() % 2 == 0 && forall|i: int| 0 <= i < kvs.len() && i % 2 == 0 ==> (#[trigger] kvs[i]) is Str
}

/// What `k` maps to after the first `n` key/value pairs of `kvs` are added to `base`.
pub open spec fn assoc_get(base: Seq<(String, RlVal)>, kvs: Seq<RlVal>, n: int, k: Seq<char>) -> Option<RlVal>
    decreases n,
{
    if n <= 0 {
        hash_get(base, k)
    } else if kvs[2 * n - 2]->Str_0@ == k {
        Some(kvs[2 * n - 1])
    } else {
        assoc_get(base, kvs, n - 1, k)
    }
}

/// What `k` maps to after the keys of the first `n` key/value pairs of `kvs` are removed from `base`.
pub open spec fn dissoc_get(base: Seq<(String, RlVal)>, kvs: Seq<RlVal>, n: int, k: Seq<char>) -> Option<RlVal>
    decreases n,
{
    if n <= 0 {
        hash_get(base, k)
    } else if kvs[2 * n - 2]->Str_0@ == k {
        None
    } else {
        dissoc_get(base, kvs, n - 1, k)
    }
}

proof fn lemma_kvs_prefix(kvs: Seq<RlVal>, n: int)
    requires
        kvs.len() % 2 == 0,
        n == kvs.len() / 2,
        forall|m: int| 0 <= m < n ==> (#[trigger] kvs[2 * m]) is Str,
    ensures
        kvs_ok(kvs),
{
    assert forall|i: int| 0 <= i < kvs.len() && i % 2 == 0 implies (#[trigger] kvs[i]) is Str by {
        let m = i / 2;
        assert(2 * m == i);
        assert(kvs[2 * m] is Str);
    }
}

/// Adds the key/value pairs of the flat list `kvs` to the pairs `hm`; a later
/// pair wins over an earlier one with the same key. The new hash has no
/// metadata.
pub fn assoc(hm: Vec<(String, RlVal)>, kvs: RlArgs) -> (r: RlRet)
    requires
        keys_unique(hm@),
    ensures
        kvs@.len() % 2 != 0 ==> is_err_msg(r, "odd number of elements"@),
        kvs@.len() % 2 == 0 && !kvs_ok(kvs@) ==> is_err_msg(r, "key is not string"@),
        kvs_ok(kvs@) ==> (r matches Ok(RlVal::Hash(p, m)) && *m == RlVal::Nil && (forall|q: Seq<char>|
            #[trigger] hash_get(p@, q) == assoc_get(hm@, kvs@, (kvs@.len() / 2) as int, q)) && keys_unique(p@)),
{
    if kvs.len() % 2 != 0 {
        return error("odd number of elements");
    }
    let ghost ks = kvs@;
    let pairs = pairs_of(kvs);
    let mut out = hm;
    let mut i: usize = 0;
    while i < pairs.len()
        invariant
            ks == kvs@,
            ks.len() % 2 == 0,
            pairs@.len() == ks.len() / 2,
            forall|j: int| 0 <= j < pairs@.len() ==> #[trigger] pairs@[j] == (ks[2 * j], ks[2 * j + 1]),
            i <= pairs@.len(),
            forall|m: int| 0 <= m < i ==> (#[trigger] ks[2 * m]) is Str,
            forall|q: Seq<char>| #[trigger] hash_get(out@, q) == assoc_get(hm@, ks, i as int, q),
            keys_unique(out@),
        decreases pairs@.len() - i,
    {
        assert(pairs@[i as int] == (ks[2 * i], ks[2 * i + 1]));
        match &pairs[i].0 {
            RlVal::Str(s) => {
                put(&mut out, s.clone(), share(&pairs[i].1));
            },
            _ => {
                assert((2 * i) % 2 == 0);
                assert(!kvs_ok(ks));
                return error("key is not string");
            },
        }
        i = i + 1;
    }
    proof {
        lemma_kvs_prefix(ks, pairs@.len() as int);
    }
    Ok(RlVal::Hash(Rc::new(out), Rc::new(RlVal::Nil)))
}

/// A hash built from the flat key/value list `kvs`.
pub fn hash_map(kvs: RlArgs) -> (r: RlRet)
    ensures
        kvs@.len() % 2 != 0 ==> is_err_msg(r, "odd number of elements"@),
        kvs@.len() % 2 == 0 && !kvs_ok(kvs@) ==> is_err_msg(r, "key is not string"@),
        kvs_ok(kvs@) ==> (r matches Ok(RlVal::Hash(p, m)) && *m == RlVal::Nil && keys_unique(p@) && (
        forall|q: Seq<char>|
            #[trigger] hash_get(p@, q) == assoc_get(Seq::empty(), kvs@, (kvs@.len() / 2) as int, q))),
{
    let hm: Vec<(String, RlVal)> = Vec::new();
    assert(hm@ == Seq::<(String, RlVal)>::empty());
    assert(keys_unique(hm@));
    assoc(hm, kvs)
}

/// Removes from the pairs `hm` the keys of the flat key/value list `kvs`,
/// which is checked as `assoc` checks it; its values are not used. The new
/// hash has no metadata.
pub fn dissoc(hm: Vec<(String, RlVal)>, kvs: RlArgs) -> (r: RlRet)
    requires
        keys_unique(hm@),
    ensures
        kvs@.len() % 2 != 0 ==> is_err_msg(r, "odd number of elements"@),
        kvs@.len() % 2 == 0 && !kvs_ok(kvs@) ==> is_err_msg(r, "key is not string"@),
        kvs_ok(kvs@) ==> (r matches Ok(RlVal::Hash(p, m)) && *m == RlVal::Nil && keys_unique(p@) && forall|q: Seq<char>|
            #[trigger] hash_get(p@, q) == dissoc_get(hm@, kvs@, (kvs@.len() / 2) as int, q)),
{
    if kvs.len() % 2 != 0 {
        return error("odd number of elements");
    }
    let ghost ks = kvs@;
    let pairs = pairs_of(kvs);
    let mut out = hm;
    let mut i: usize = 0;
    while i < pairs.len()
        invariant
            ks == kvs@,
            ks.len() % 2 == 0,
            pairs@.len() == ks.len() / 2,
            forall|j: int| 0 <= j < pairs@.len() ==> #[trigger] pairs@[j] == (ks[2 * j], ks[2 * j + 1]),
            i <= pairs@.len(),
            forall|m: int| 0 <= m < i ==> (#[trigger] ks[2 * m]) is Str,
            forall|q: Seq<char>| #[trigger] hash_get(out@, q) == dissoc_get(hm@, ks, i as int, q),
            keys_unique(out@),
        decreases pairs@.len() - i,
    {
        assert(pairs@[i as int] == (ks[2 * i], ks[2 * i + 1]));
        match &pairs[i].0 {
            RlVal::Str(s) => {
                remove_key(&mut out, s);
            },
            _ => {
                assert((2 * i) % 2 == 0);
                assert(!kvs_ok(ks));
                return error("key is not string");
            },
        }
        i = i + 1;
    }
    proof {
        lemma_kvs_prefix(ks, pairs@.len() as int);
    }
    Ok(RlVal::Hash(Rc::new(out), Rc::new(RlVal::Nil)))
}

/// Reading back the metadata that `with_meta` attached gives it exactly; the
/// copy keeps the payload of the original, which itself is not changed.
pub proof fn lemma_meta_round_trip(v: RlVal, m: RlVal)
    requires
        has_meta(v),
    ensures
        has_meta(replace_meta(v, m)),
        meta_of(replace_meta(v, m)) == m,
        replace_meta(replace_meta(v, m), meta_of(v)) == v,
        seq_items(replace_meta(v, m)) == seq_items(v),
        val_eq(replace_meta(v, m), v) == val_eq(v, v),
{
}

/// A closure equals no value, itself included, in either order.
pub proof fn lemma_closure_never_equal(c: RlVal, v: RlVal)
    requires
        c is RlFunc,
    ensures
        !val_eq(c, v),
        !val_eq(v, c),
{
}

/// A list and a vector are equal exactly when their elements are equal one
/// by one, whatever their metadata.
pub proof fn lemma_list_vector_equal(x: Rc<Vec<RlVal>>, y: Rc<Vec<RlVal>>, m1: Rc<RlVal>, m2: Rc<RlVal>)
    ensures
        val_eq(RlVal::List(x, m1), RlVal::Vector(y, m2)) == (x@.len() == y@.len() && forall|i: int|
            0 <= i < x@.len() ==> val_eq(#[trigger] x@[i], y@[i])),
        val_eq(RlVal::Vector(x, m1), RlVal::List(y, m2)) == val_eq(RlVal::List(x, m1), RlVal::Vector(y, m2)),
{
}

/// Equality does not look at metadata.
pub proof fn lemma_eq_ignores_meta(v: RlVal, m: RlVal, w: RlVal)
    ensures
        val_eq(replace_meta(v, m), w) == val_eq(v, w),
{
}

/// The error's message, or a string error value's text. Printing other error
/// values is the printer's work, which is outside this library.
pub fn format_error(e: RlErr) -> (r: String)
    ensures
        e matches RlErr::ErrString(s) ==> r@ == s@,
        e matches RlErr::ErrRlVal(RlVal::Str(s)) ==> r@ == s@,
        (e matches RlErr::ErrRlVal(v) && !(v is Str)) ==> r@ == "error value"@,
{
    match e {
        RlErr::ErrString(s) => s,
        RlErr::ErrRlVal(RlVal::Str(s)) => s,
        RlErr::ErrRlVal(_) => "error value".to_owned(),
    }
}

} // verus!
