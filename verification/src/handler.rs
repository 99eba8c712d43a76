//! The command dispatcher and its in-memory store: PING, SET, GET, HSET,
//! HGET and HGETALL over a keyed store of strings and field/value maps.

use vstd::prelude::*;
use crate::resp::{RespData, RespModel};
use crate::text::{all_ascii, ascii_char, str_eq, to_uppercase, unicode_upper, upper_seq};

verus! {

broadcast use vstd::seq::group_seq_axioms, vstd::std_specs::vec::group_vec_axioms;

// ---------------------------------------------------------------------------
// Keyed entry sequences: the model of both the store and a field map
// ---------------------------------------------------------------------------

/// The first index whose key is `k`, or -1 when no entry has it.
pub open spec fn find_key<T>(es: Seq<(Seq<char>, T)>, k: Seq<char>) -> int
    decreases es.len(),
{
    if es.len() == 0 {
        -1
    } else if es[0].0 == k {
        0
    } else {
        let r = find_key(es.drop_first(), k);
        if r == -1 {
            -1
        } else {
            r + 1
        }
    }
}

/// No two entries share a key.
pub open spec fn keys_distinct<T>(es: Seq<(Seq<char>, T)>) -> bool {
    forall|i: int, j: int| 0 <= i < j < es.len() ==> (#[trigger] es[i]).0 != (#[trigger] es[j]).0
}

/// Sets `k` to `v`: overwrites the entry holding `k` in place, or appends
/// a new entry when `k` is absent.
pub open spec fn upsert<T>(es: Seq<(Seq<char>, T)>, k: Seq<char>, v: T) -> Seq<(Seq<char>, T)> {
    let i = find_key(es, k);
    if i == -1 {
        es.push((k, v))
    } else {
        es.update(i, (k, v))
    }
}

/// What `find_key` returns: the first matching index, or -1 when no entry
/// matches.
pub proof fn lemma_find_key_props<T>(es: Seq<(Seq<char>, T)>, k: Seq<char>)
    ensures
        ({
            let i = find_key(es, k);
            if i == -1 {
                forall|j: int| 0 <= j < es.len() ==> (#[trigger] es[j]).0 != k
            } else {
                &&& 0 <= i < es.len()
                &&& es[i].0 == k
                &&& forall|j: int| 0 <= j < i ==> (#[trigger] es[j]).0 != k
            }
        }),
    decreases es.len(),
{
    if es.len() > 0 && es[0].0 != k {
        lemma_find_key_props(es.drop_first(), k);
        assert(forall|j: int|
            1 <= j < es.len() ==> (#[trigger] es[j]) == es.drop_first()[j - 1]);
    }
}

/// An entry with key `k` at `i`, none earlier, pins `find_key` to `i`.
proof fn lemma_find_key_is_first<T>(es: Seq<(Seq<char>, T)>, k: Seq<char>, i: int)
    requires
        0 <= i < es.len(),
        es[i].0 == k,
        forall|j: int| 0 <= j < i ==> (#[trigger] es[j]).0 != k,
    ensures
        find_key(es, k) == i,
    decreases i,
{
    if i > 0 {
        assert(forall|j: int|
            1 <= j < es.len() ==> (#[trigger] es.drop_first()[j - 1]) == es[j]);
        lemma_find_key_is_first(es.drop_first(), k, i - 1);
    }
}

/// When no entry has key `k`, `find_key` reports -1.
proof fn lemma_find_key_none<T>(es: Seq<(Seq<char>, T)>, k: Seq<char>)
    requires
        forall|j: int| 0 <= j < es.len() ==> (#[trigger] es[j]).0 != k,
    ensures
        find_key(es, k) == -1,
    decreases es.len(),
{
    if es.len() > 0 {
        assert(forall|j: int|
            1 <= j < es.len() ==> (#[trigger] es.drop_first()[j - 1]) == es[j]);
        lemma_find_key_none(es.drop_first(), k);
    }
}

/// Removing an entry and inserting another at the same place is an update.
proof fn lemma_remove_insert<T>(es: Seq<T>, i: int, x: T)
    requires
        0 <= i < es.len(),
    ensures
        es.remove(i).insert(i, x) =~= es.update(i, x),
{
}

// ---------------------------------------------------------------------------
// Stored values
// ---------------------------------------------------------------------------

/// A field/value mapping stored under one key, in insertion order, with
/// pairwise distinct fields.
pub struct FieldMap {
    entries: Vec<(String, String)>,
}

/// A value a key can hold: plain text set by SET, or a field/value
/// mapping built by HSET.
pub enum RedisValue {
    Str(String),
    Hash(FieldMap),
}

/// The mathematical shape of a stored value; a mapping is its ordered
/// sequence of field/value pairs.
pub enum ValueModel {
    Str(Seq<char>),
    Hash(Seq<(Seq<char>, Seq<char>)>),
}

/// A well-shaped stored value: a mapping has pairwise distinct fields.
pub open spec fn value_wf(v: ValueModel) -> bool {
    match v {
        ValueModel::Str(_) => true,
        ValueModel::Hash(ps) => keys_distinct(ps),
    }
}

impl FieldMap {
    /// The field/value pairs, in insertion order.
    pub closed spec fn pairs(&self) -> Seq<(Seq<char>, Seq<char>)> {
        Seq::new(self.entries@.len(), |i: int| (self.entries@[i].0@, self.entries@[i].1@))
    }

    /// Fields are pairwise distinct.
    pub open spec fn wf(&self) -> bool {
        keys_distinct(self.pairs())
    }

    /// An empty mapping.
    pub fn new() -> (r: FieldMap)
        ensures
            r.wf(),
            r.pairs() == Seq::<(Seq<char>, Seq<char>)>::empty(),
    {
        let r = FieldMap { entries: Vec::new() };
        proof {
            assert(r.pairs() =~= Seq::<(Seq<char>, Seq<char>)>::empty());
        }
        r
    }

    /// Sets `field` to `value`, overwriting in place or appending, and
    /// reports whether the field was previously absent.
    pub fn insert(&mut self, field: String, value: String) -> (is_new: bool)
        requires
            old(self).wf(),
        ensures
            final(self).wf(),
            final(self).pairs() == upsert(old(self).pairs(), field@, value@),
            is_new == (find_key(old(self).pairs(), field@) == -1),
    {
        let ghost ps0 = self.pairs();
        let n = self.entries.len();
        let mut j: usize = 0;
        while j < n
            invariant
                0 <= j <= n,
                n == self.entries@.len(),
                *self == *old(self),
                ps0 == self.pairs(),
                keys_distinct(ps0),
                forall|m: int| 0 <= m < j ==> (#[trigger] ps0[m]).0 != field@,
            decreases n - j,
        {
            if self.entries[j].0 == field {
                proof {
                    assert(ps0[j as int].0 == field@);
                    lemma_find_key_is_first(ps0, field@, j as int);
                }
                let _ = self.entries.remove(j);
                self.entries.insert(j, (field, value));
                proof {
                    assert(self.pairs() =~= ps0.update(j as int, (field@, value@)));
                    assert forall|x: int, y: int| 0 <= x < y < self.pairs().len() implies (
                    self.pairs()[x]).0 != (self.pairs()[y]).0 by {
                        assert(ps0[x].0 != ps0[y].0);
                        assert(ps0[j as int].0 == field@);
                    }
                }
                return false;
            }
            j = j + 1;
        }
        proof {
            lemma_find_key_none(ps0, field@);
        }
        self.entries.push((field, value));
        proof {
            assert(self.pairs() =~= ps0.push((field@, value@)));
            lemma_find_key_props(ps0, field@);
            assert(keys_distinct(self.pairs()));
        }
        true
    }

    /// Looks a field up.
    pub fn get(&self, field: &String) -> (r: Option<&String>)
        ensures
            match r {
                Some(v) => {
                    &&& find_key(self.pairs(), field@) >= 0
                    &&& v@ == self.pairs()[find_key(self.pairs(), field@)].1
                },
                None => find_key(self.pairs(), field@) == -1,
            },
    {
        let n = self.entries.len();
        let mut j: usize = 0;
        while j < n
            invariant
                0 <= j <= n,
                n == self.entries@.len(),
                forall|m: int| 0 <= m < j ==> (#[trigger] self.pairs()[m]).0 != field@,
            decreases n - j,
        {
            if self.entries[j].0 == *field {
                proof {
                    assert(self.pairs()[j as int].0 == field@);
                    lemma_find_key_is_first(self.pairs(), field@, j as int);
                }
                return Some(&self.entries[j].1);
            }
            j = j + 1;
        }
        proof {
            lemma_find_key_none(self.pairs(), field@);
        }
        None
    }
}

impl View for RedisValue {
    type V = ValueModel;

    open spec fn view(&self) -> ValueModel {
        match self {
            RedisValue::Str(s) => ValueModel::Str(s@),
            RedisValue::Hash(m) => ValueModel::Hash(m.pairs()),
        }
    }
}

// ---------------------------------------------------------------------------
// The store
// ---------------------------------------------------------------------------

/// The keyed store: entries in insertion order, keys pairwise distinct.
pub struct Store {
    entries: Vec<(String, RedisValue)>,
}

impl View for Store {
    type V = Seq<(Seq<char>, ValueModel)>;

    closed spec fn view(&self) -> Seq<(Seq<char>, ValueModel)> {
        Seq::new(self.entries@.len(), |i: int| (self.entries@[i].0@, self.entries@[i].1@))
    }
}

/// Looks `k` up in a store model.
pub open spec fn store_get(db: Seq<(Seq<char>, ValueModel)>, k: Seq<char>) -> Option<ValueModel> {
    let i = find_key(db, k);
    if i == -1 {
        None
    } else {
        Some(db[i].1)
    }
}

impl Store {
    /// Keys are pairwise distinct and every stored value is well shaped.
    pub open spec fn wf(&self) -> bool {
        &&& keys_distinct(self@)
        &&& forall|i: int| 0 <= i < self@.len() ==> value_wf((#[trigger] self@[i]).1)
    }

    /// An empty store.
    pub fn new() -> (r: Store)
        ensures
            r.wf(),
            r@ == Seq::<(Seq<char>, ValueModel)>::empty(),
    {
        let r = Store { entries: Vec::new() };
        proof {
            assert(r@ =~= Seq::<(Seq<char>, ValueModel)>::empty());
        }
        r
    }

    /// Sets `key` to `value`, overwriting any prior value of either shape.
    pub fn insert(&mut self, key: String, value: RedisValue)
        requires
            old(self).wf(),
            value_wf(value@),
        ensures
            final(self).wf(),
            final(self)@ == upsert(old(self)@, key@, value@),
    {
        let ghost db0 = self@;
        let ghost vm = value@;
        match self.find_entry(&key) {
            Some(i) => {
                let _ = self.entries.remove(i);
                self.entries.insert(i, (key, value));
                proof {
                    lemma_find_key_props(db0, key@);
                    assert(self@ =~= db0.update(find_key(db0, key@), (key@, vm)));
                    assert forall|x: int, y: int| 0 <= x < y < self@.len() implies (
                    self@[x]).0 != (self@[y]).0 by {
                        assert(db0[x].0 != db0[y].0);
                        assert(db0[find_key(db0, key@)].0 == key@);
                    }
                }
            },
            None => {
                self.entries.push((key, value));
                proof {
                    lemma_find_key_props(db0, key@);
                    assert(self@ =~= db0.push((key@, vm)));
                    assert(keys_distinct(self@));
                }
            },
        }
    }

    /// The index of the entry holding `key`, when one does.
    fn find_entry(&self, key: &String) -> (r: Option<usize>)
        ensures
            match r {
                Some(i) => (i as int) < self@.len() && find_key(self@, key@) == i as int,
                None => find_key(self@, key@) == -1,
            },
    {
        let n = self.entries.len();
        let mut j: usize = 0;
        while j < n
            invariant
                0 <= j <= n,
                n == self.entries@.len(),
                forall|m: int| 0 <= m < j ==> (#[trigger] self@[m]).0 != key@,
            decreases n - j,
        {
            if self.entries[j].0 == *key {
                proof {
                    assert(self@[j as int].0 == key@);
                    lemma_find_key_is_first(self@, key@, j as int);
                }
                return Some(j);
            }
            j = j + 1;
        }
        proof {
            lemma_find_key_none(self@, key@);
        }
        None
    }
}

// ---------------------------------------------------------------------------
// What each command does, as a function from store and request to the new
// store and the reply
// ---------------------------------------------------------------------------

/// The text of a string-like protocol value: a simple string or a bulk
/// string carries text, every other shape does not.
pub open spec fn text_of(v: RespModel) -> Option<Seq<char>> {
    match v {
        RespModel::SimpleString(s) => Some(s),
        RespModel::BulkString(s) => Some(s),
        _ => None,
    }
}

/// The command name of a request: a string-like scalar is itself the name;
/// an array names its command by its string-like first element; any other
/// shape has none.
pub open spec fn command_name(req: RespModel) -> Option<Seq<char>> {
    match req {
        RespModel::SimpleString(s) => Some(s),
        RespModel::BulkString(s) => Some(s),
        RespModel::Array(a) => if a.len() > 0 {
            text_of(a[0])
        } else {
            None
        },
        _ => None,
    }
}

/// SET key value: stores the value, replying OK; more than three elements
/// is a syntax error, any other departure from the exact three-element
/// shape with string-like key and value a wrong-arity error.
pub open spec fn set_spec(db: Seq<(Seq<char>, ValueModel)>, req: RespModel) -> (
    Seq<(Seq<char>, ValueModel)>,
    RespModel,
) {
    match req {
        RespModel::Array(a) => {
            if a.len() > 3 {
                (db, RespModel::Error("syntax error"@))
            } else if a.len() == 3 && text_of(a[1]) is Some && text_of(a[2]) is Some {
                (
                    upsert(db, text_of(a[1])->Some_0, ValueModel::Str(text_of(a[2])->Some_0)),
                    RespModel::SimpleString("OK"@),
                )
            } else {
                (db, RespModel::Error("wrong number of arguments for 'set' command"@))
            }
        },
        _ => (db, RespModel::Error("syntax error"@)),
    }
}

/// GET key: the stored text, Null for an absent key or one holding a
/// mapping; a wrong element count is a wrong-arity error, a key that is
/// not string-like a syntax error.
pub open spec fn get_spec(db: Seq<(Seq<char>, ValueModel)>, req: RespModel) -> (
    Seq<(Seq<char>, ValueModel)>,
    RespModel,
) {
    match req {
        RespModel::Array(a) => {
            if a.len() != 2 {
                (db, RespModel::Error("wrong number of arguments for 'get' command"@))
            } else if text_of(a[1]) is None {
                (db, RespModel::Error("syntax error"@))
            } else {
                match store_get(db, text_of(a[1])->Some_0) {
                    None => (db, RespModel::Null),
                    Some(ValueModel::Str(v)) => (db, RespModel::BulkString(v)),
                    Some(ValueModel::Hash(_)) => (db, RespModel::Null),
                }
            }
        },
        _ => (db, RespModel::Error("syntax error"@)),
    }
}

/// Applies the field/value pairs of `a` from index `i` on to the pairs
/// `ps`, counting the fields not previously present. A field or value
/// that is not string-like stops the walk with a type error; the pairs
/// already applied stay applied, and the mapping is stored in either
/// case.
pub open spec fn hset_pairs(
    db: Seq<(Seq<char>, ValueModel)>,
    k: Seq<char>,
    ps: Seq<(Seq<char>, Seq<char>)>,
    a: Seq<RespModel>,
    i: int,
    fresh: int,
) -> (Seq<(Seq<char>, ValueModel)>, RespModel)
    decreases a.len() - i,
{
    if i < 0 || i >= a.len() || i + 1 >= a.len() {
        (upsert(db, k, ValueModel::Hash(ps)), RespModel::Integer(fresh))
    } else if text_of(a[i]) is None {
        (upsert(db, k, ValueModel::Hash(ps)), RespModel::Error("Invalid field type"@))
    } else if text_of(a[i + 1]) is None {
        (upsert(db, k, ValueModel::Hash(ps)), RespModel::Error("Invalid value type"@))
    } else {
        let f = text_of(a[i])->Some_0;
        let v = text_of(a[i + 1])->Some_0;
        let fresh2 = if find_key(ps, f) == -1 {
            fresh + 1
        } else {
            fresh
        };
        hset_pairs(db, k, upsert(ps, f, v), a, i + 2, fresh2)
    }
}

/// HSET key field value [field value ...]: creates the mapping when the
/// key is absent, refuses a key holding plain text, applies the pairs in
/// order, and replies with the count of fields that did not previously
/// exist. Fewer than four elements, an odd element count, or a key that
/// is not string-like is a wrong-arity error.
pub open spec fn hset_spec(db: Seq<(Seq<char>, ValueModel)>, req: RespModel) -> (
    Seq<(Seq<char>, ValueModel)>,
    RespModel,
) {
    match req {
        RespModel::Array(a) => {
            if a.len() < 4 || a.len() % 2 != 0 {
                (db, RespModel::Error("wrong number of arguments for 'hset' command"@))
            } else if text_of(a[1]) is None {
                (db, RespModel::Error("wrong number of arguments for 'hset' command"@))
            } else {
                let k = text_of(a[1])->Some_0;
                match store_get(db, k) {
                    Some(ValueModel::Str(_)) => (
                        db,
                        RespModel::Error("Key exists but value is not a map"@),
                    ),
                    Some(ValueModel::Hash(ps)) => hset_pairs(db, k, ps, a, 2, 0),
                    None => hset_pairs(db, k, Seq::empty(), a, 2, 0),
                }
            }
        },
        _ => (db, RespModel::Error("wrong number of arguments for 'hset' command"@)),
    }
}

/// HGET key field: the field's value, Null for an absent key or field, a
/// WRONGTYPE error for a key holding plain text; any departure from the
/// three-element shape with string-like key and field is a wrong-arity
/// error.
pub open spec fn hget_spec(db: Seq<(Seq<char>, ValueModel)>, req: RespModel) -> (
    Seq<(Seq<char>, ValueModel)>,
    RespModel,
) {
    match req {
        RespModel::Array(a) => {
            if a.len() != 3 {
                (db, RespModel::Error("wrong number of arguments for 'hget' command"@))
            } else if text_of(a[1]) is None || text_of(a[2]) is None {
                (db, RespModel::Error("wrong number of arguments for 'hget' command"@))
            } else {
                match store_get(db, text_of(a[1])->Some_0) {
                    Some(ValueModel::Hash(ps)) => {
                        let i = find_key(ps, text_of(a[2])->Some_0);
                        if i == -1 {
                            (db, RespModel::Null)
                        } else {
                            (db, RespModel::BulkString(ps[i].1))
                        }
                    },
                    Some(ValueModel::Str(_)) => (
                        db,
                        RespModel::Error(
                            "WRONGTYPE Operation against a key holding the wrong kind of value"@,
                        ),
                    ),
                    None => (db, RespModel::Null),
                }
            }
        },
        _ => (db, RespModel::Error("wrong number of arguments for 'hget' command"@)),
    }
}

/// The field/value pairs of a mapping flattened into the reply array:
/// field, value, field, value, in order.
pub open spec fn hash_items(ps: Seq<(Seq<char>, Seq<char>)>) -> Seq<RespModel> {
    Seq::new(
        2 * ps.len(),
        |i: int|
            if i % 2 == 0 {
                RespModel::BulkString(ps[i / 2].0)
            } else {
                RespModel::BulkString(ps[i / 2].1)
            },
    )
}

/// HGETALL key: the mapping's pairs flattened into an array; an absent
/// key or one holding plain text yields an empty array. Fewer than two
/// elements is a wrong-arity error, a key that is not string-like a
/// syntax error.
pub open spec fn hgetall_spec(db: Seq<(Seq<char>, ValueModel)>, req: RespModel) -> (
    Seq<(Seq<char>, ValueModel)>,
    RespModel,
) {
    match req {
        RespModel::Array(a) => {
            if a.len() < 2 {
                (db, RespModel::Error("wrong number of arguments for 'hgetall' command"@))
            } else if text_of(a[1]) is None {
                (db, RespModel::Error("syntax error"@))
            } else {
                match store_get(db, text_of(a[1])->Some_0) {
                    Some(ValueModel::Hash(ps)) => (db, RespModel::Array(hash_items(ps))),
                    _ => (db, RespModel::Array(Seq::empty())),
                }
            }
        },
        _ => (db, RespModel::Error("wrong number of arguments for 'hgetall' command"@)),
    }
}

/// Dispatches one request: the command name, folded to uppercase as
/// `str::to_uppercase` folds it and matched against PING, SET, GET,
/// HSET, HGET and HGETALL, picks the command; a request without a name,
/// or with an unrecognised one, is refused.
pub open spec fn handle_spec(db: Seq<(Seq<char>, ValueModel)>, req: RespModel) -> (
    Seq<(Seq<char>, ValueModel)>,
    RespModel,
) {
    match command_name(req) {
        None => (db, RespModel::Error("Invalid command"@)),
        Some(cmd) => {
            let u = unicode_upper(cmd);
            if u == "PING"@ {
                (db, RespModel::SimpleString("PONG"@))
            } else if u == "SET"@ {
                set_spec(db, req)
            } else if u == "GET"@ {
                get_spec(db, req)
            } else if u == "HSET"@ {
                hset_spec(db, req)
            } else if u == "HGET"@ {
                hget_spec(db, req)
            } else if u == "HGETALL"@ {
                hgetall_spec(db, req)
            } else {
                (db, RespModel::Error("Invalid command"@))
            }
        },
    }
}

// ---------------------------------------------------------------------------
// The dispatcher
// ---------------------------------------------------------------------------

/// Interprets decoded requests against the store it owns.
pub struct CommandHandler {
    pub db: Store,
}

fn mk_error(msg: &str) -> (r: RespData)
    ensures
        r@ == RespModel::Error(msg@),
{
    RespData::Error(msg.to_owned())
}

/// The text of a string-like element, as `text_of` reads it.
fn text_arg(v: &RespData) -> (r: Option<&String>)
    ensures
        match r {
            Some(s) => text_of(v@) == Some(s@),
            None => text_of(v@) is None,
        },
{
    match v {
        RespData::SimpleString(s) => Some(s),
        RespData::BulkString(s) => Some(s),
        _ => None,
    }
}

fn mk_simple(msg: &str) -> (r: RespData)
    ensures
        r@ == RespModel::SimpleString(msg@),
{
    RespData::SimpleString(msg.to_owned())
}

impl CommandHandler {
    /// The store is well shaped.
    pub open spec fn wf(&self) -> bool {
        self.db.wf()
    }

    /// A dispatcher over the given store.
    pub fn from(db: Store) -> (r: CommandHandler)
        ensures
            r.db == db,
    {
        CommandHandler { db }
    }

    /// PING: always PONG, whatever the arguments.
    pub fn ping(&mut self) -> (r: RespData)
        ensures
            *final(self) == *old(self),
            r@ == RespModel::SimpleString("PONG"@),
    {
        mk_simple("PONG")
    }

    /// SET key value, as `set_spec` says.
    pub fn set(&mut self, resp: &RespData) -> (r: RespData)
        requires
            old(self).wf(),
        ensures
            final(self).wf(),
            ({
                let (db2, m) = set_spec(old(self).db@, resp@);
                final(self).db@ == db2 && r@ == m
            }),
    {
        let arr = match resp {
            RespData::Array(x) => x,
            _ => {
                return mk_error("syntax error");
            },
        };
        let ghost a = (match resp@ {
            RespModel::Array(s) => s,
            _ => Seq::empty(),
        });
        proof {
            assert(resp@ == RespModel::Array(a));
            assert(forall|m: int| 0 <= m < a.len() ==> a[m] == arr[m]@);
        }
        if arr.len() > 3 {
            return mk_error("syntax error");
        }
        if arr.len() == 3 {
            match (text_arg(&arr[1]), text_arg(&arr[2])) {
                (Some(k), Some(v)) => {
                    self.db.insert(k.clone(), RedisValue::Str(v.clone()));
                    return mk_simple("OK");
                },
                _ => {
                    return mk_error("wrong number of arguments for 'set' command");
                },
            }
        }
        mk_error("wrong number of arguments for 'set' command")
    }

    /// GET key, as `get_spec` says.
    pub fn get(&mut self, resp: &RespData) -> (r: RespData)
        requires
            old(self).wf(),
        ensures
            final(self).wf(),
            ({
                let (db2, m) = get_spec(old(self).db@, resp@);
                final(self).db@ == db2 && r@ == m
            }),
    {
        let arr = match resp {
            RespData::Array(x) => x,
            _ => {
                return mk_error("syntax error");
            },
        };
        let ghost a = (match resp@ {
            RespModel::Array(s) => s,
            _ => Seq::empty(),
        });
        proof {
            assert(resp@ == RespModel::Array(a));
            assert(forall|m: int| 0 <= m < a.len() ==> a[m] == arr[m]@);
        }
        if arr.len() != 2 {
            return mk_error("wrong number of arguments for 'get' command");
        }
        match text_arg(&arr[1]) {
            Some(key) => {
                match self.db.find_entry(key) {
                    None => RespData::Null,
                    Some(i) => {
                        match &self.db.entries[i].1 {
                            RedisValue::Str(v) => RespData::BulkString(v.clone()),
                            RedisValue::Hash(_) => RespData::Null,
                        }
                    },
                }
            },
            None => mk_error("syntax error"),
        }
    }

    /// HGET key field, as `hget_spec` says.
    pub fn hget(&mut self, resp: &RespData) -> (r: RespData)
        requires
            old(self).wf(),
        ensures
            final(self).wf(),
            ({
                let (db2, m) = hget_spec(old(self).db@, resp@);
                final(self).db@ == db2 && r@ == m
            }),
    {
        let arr = match resp {
            RespData::Array(x) => x,
            _ => {
                return mk_error("wrong number of arguments for 'hget' command");
            },
        };
        let ghost a = (match resp@ {
            RespModel::Array(s) => s,
            _ => Seq::empty(),
        });
        proof {
            assert(resp@ == RespModel::Array(a));
            assert(forall|m: int| 0 <= m < a.len() ==> a[m] == arr[m]@);
        }
        if arr.len() != 3 {
            return mk_error("wrong number of arguments for 'hget' command");
        }
        match (text_arg(&arr[1]), text_arg(&arr[2])) {
            (Some(key), Some(field)) => {
                match self.db.find_entry(key) {
                    None => RespData::Null,
                    Some(i) => {
                        match &self.db.entries[i].1 {
                            RedisValue::Hash(fm) => {
                                match fm.get(field) {
                                    None => RespData::Null,
                                    Some(v) => RespData::BulkString(v.clone()),
                                }
                            },
                            RedisValue::Str(_) => mk_error(
                                "WRONGTYPE Operation against a key holding the wrong kind of value",
                            ),
                        }
                    },
                }
            },
            _ => mk_error("wrong number of arguments for 'hget' command"),
        }
    }

    /// HGETALL key, as `hgetall_spec` says.
    pub fn hgetall(&mut self, resp: &RespData) -> (r: RespData)
        requires
            old(self).wf(),
        ensures
            final(self).wf(),
            ({
                let (db2, m) = hgetall_spec(old(self).db@, resp@);
                final(self).db@ == db2 && r@ == m
            }),
    {
        let arr = match resp {
            RespData::Array(x) => x,
            _ => {
                return mk_error("wrong number of arguments for 'hgetall' command");
            },
        };
        let ghost a = (match resp@ {
            RespModel::Array(s) => s,
            _ => Seq::empty(),
        });
        proof {
            assert(resp@ == RespModel::Array(a));
            assert(forall|m: int| 0 <= m < a.len() ==> a[m] == arr[m]@);
        }
        if arr.len() < 2 {
            return mk_error("wrong number of arguments for 'hgetall' command");
        }
        match text_arg(&arr[1]) {
            Some(key) => {
                match self.db.find_entry(key) {
                    Some(i) => {
                        match &self.db.entries[i].1 {
                            RedisValue::Hash(fm) => {
                                let ghost ps = fm.pairs();
                                let n = fm.entries.len();
                                let mut items: Vec<RespData> = Vec::new();
                                let mut j: usize = 0;
                                while j < n
                                    invariant
                                        0 <= j <= n,
                                        n == fm.entries@.len(),
                                        ps == fm.pairs(),
                                        items.deep_view().len() == 2 * j,
                                        forall|m: int|
                                            0 <= m < 2 * j ==> items.deep_view()[m] == hash_items(
                                                ps,
                                            )[m],
                                    decreases n - j,
                                {
                                    let ghost dv = items.deep_view();
                                    items.push(RespData::BulkString(fm.entries[j].0.clone()));
                                    items.push(RespData::BulkString(fm.entries[j].1.clone()));
                                    proof {
                                        assert(items.deep_view() =~= dv.push(
                                            RespModel::BulkString(ps[j as int].0),
                                        ).push(RespModel::BulkString(ps[j as int].1)));
                                    }
                                    j = j + 1;
                                }
                                let r = RespData::Array(items);
                                proof {
                                    match r@ {
                                        RespModel::Array(s) => {
                                            assert(s =~= hash_items(ps));
                                        },
                                        _ => {
                                            assert(false);
                                        },
                                    }
                                }
                                r
                            },
                            RedisValue::Str(_) => {
                                let r = RespData::Array(Vec::new());
                                proof {
                                    match r@ {
                                        RespModel::Array(s) => {
                                            assert(s =~= Seq::<RespModel>::empty());
                                        },
                                        _ => {
                                            assert(false);
                                        },
                                    }
                                }
                                r
                            },
                        }
                    },
                    None => {
                        let r = RespData::Array(Vec::new());
                        proof {
                            match r@ {
                                RespModel::Array(s) => {
                                    assert(s =~= Seq::<RespModel>::empty());
                                },
                                _ => {
                                    assert(false);
                                },
                            }
                        }
                        r
                    },
                }
            },
            None => mk_error("syntax error"),
        }
    }

    /// Puts a mapping back into the store: into the slot its entry was
    /// taken from, or as a new entry at the end.
    fn restore_hash(
        &mut self,
        kept: Option<(usize, String)>,
        key: &String,
        fm: FieldMap,
        Ghost(db0): Ghost<Seq<(Seq<char>, ValueModel)>>,
    )
        requires
            keys_distinct(db0),
            forall|x: int| 0 <= x < db0.len() ==> value_wf((#[trigger] db0[x]).1),
            fm.wf(),
            match kept {
                Some((i, k0)) => {
                    &&& (i as int) < db0.len()
                    &&& find_key(db0, key@) == i as int
                    &&& old(self).db@ == db0.remove(i as int)
                    &&& k0@ == key@
                },
                None => find_key(db0, key@) == -1 && old(self).db@ == db0,
            },
        ensures
            final(self).wf(),
            final(self).db@ == upsert(db0, key@, ValueModel::Hash(fm.pairs())),
    {
        let ghost pairs = fm.pairs();
        proof {
            lemma_find_key_props(db0, key@);
        }
        match kept {
            Some((i, k0)) => {
                proof {
                    assert(self.db.entries@.len() == db0.remove(i as int).len());
                    assert(i as int <= self.db.entries@.len());
                }
                self.db.entries.insert(i, (k0, RedisValue::Hash(fm)));
                proof {
                    let e = (key@, ValueModel::Hash(pairs));
                    assert(self.db@ =~= db0.remove(i as int).insert(i as int, e));
                    lemma_remove_insert(db0, i as int, e);
                    assert(self.db@ =~= db0.update(i as int, e));
                    assert forall|x: int, y: int| 0 <= x < y < self.db@.len() implies (
                    self.db@[x]).0 != (self.db@[y]).0 by {
                        assert(db0[x].0 != db0[y].0);
                        assert(db0[i as int].0 == key@);
                    }
                }
            },
            None => {
                self.db.entries.push((key.clone(), RedisValue::Hash(fm)));
                proof {
                    assert(self.db@ =~= db0.push((key@, ValueModel::Hash(pairs))));
                    lemma_find_key_props(db0, key@);
                    assert(keys_distinct(self.db@));
                }
            },
        }
    }

    /// HSET key field value [field value ...], as `hset_spec` says.
    pub fn hset(&mut self, resp: &RespData) -> (r: RespData)
        requires
            old(self).wf(),
        ensures
            final(self).wf(),
            ({
                let (db2, m) = hset_spec(old(self).db@, resp@);
                final(self).db@ == db2 && r@ == m
            }),
    {
        let arr = match resp {
            RespData::Array(x) => x,
            _ => {
                return mk_error("wrong number of arguments for 'hset' command");
            },
        };
        let ghost a = (match resp@ {
            RespModel::Array(s) => s,
            _ => Seq::empty(),
        });
        proof {
            assert(resp@ == RespModel::Array(a));
            assert(forall|m: int| 0 <= m < a.len() ==> a[m] == arr[m]@);
        }
        if arr.len() < 4 || arr.len() % 2 != 0 {
            return mk_error("wrong number of arguments for 'hset' command");
        }
        let key = match text_arg(&arr[1]) {
            Some(k) => k,
            None => {
                return mk_error("wrong number of arguments for 'hset' command");
            },
        };
        let ghost db0 = self.db@;
        let ghost target = hset_spec(db0, resp@);
        let found = self.db.find_entry(key);
        let (mut fm, kept) = match found {
            Some(i) => {
                match &self.db.entries[i].1 {
                    RedisValue::Str(_) => {
                        return mk_error("Key exists but value is not a map");
                    },
                    RedisValue::Hash(_) => {},
                }
                let (k0, v0) = self.db.entries.remove(i);
                let m = match v0 {
                    RedisValue::Hash(m) => m,
                    RedisValue::Str(_) => {
                        proof {
                            assert(false);
                        }
                        FieldMap::new()
                    },
                };
                (m, Some((i, k0)))
            },
            None => (FieldMap::new(), None),
        };
        let ghost base = fm.pairs();
        proof {
            lemma_find_key_props(db0, key@);
            match found {
                Some(i) => {
                    assert(db0[i as int].1 == ValueModel::Hash(base));
                    assert(self.db@ =~= db0.remove(i as int));
                    assert(store_get(db0, key@) == Some(ValueModel::Hash(base)));
                    assert(value_wf(ValueModel::Hash(base)));
                },
                None => {
                    assert(store_get(db0, key@) is None);
                    assert(base =~= Seq::<(Seq<char>, Seq<char>)>::empty());
                },
            }
            assert(target == hset_pairs(db0, key@, base, a, 2, 0));
        }
        let mut fresh: i64 = 0;
        let mut j: usize = 2;
        while j < arr.len()
            invariant
                2 <= j <= arr.len(),
                j % 2 == 0,
                arr@.len() % 2 == 0,
                arr@.len() >= 4,
                a.len() == arr@.len(),
                forall|m: int| 0 <= m < a.len() ==> a[m] == arr[m]@,
                fm.wf(),
                0 <= fresh,
                fresh as int <= (j - 2) / 2,
                keys_distinct(db0),
                forall|x: int| 0 <= x < db0.len() ==> value_wf((#[trigger] db0[x]).1),
                text_of(a[1]) == Some(key@),
                resp@ == RespModel::Array(a),
                db0 == old(self).db@,
                target == hset_spec(db0, resp@),
                match kept {
                    Some((i, k0)) => {
                        &&& (i as int) < db0.len()
                        &&& find_key(db0, key@) == i as int
                        &&& self.db@ == db0.remove(i as int)
                        &&& k0@ == key@
                    },
                    None => find_key(db0, key@) == -1 && self.db@ == db0,
                },
                hset_pairs(db0, key@, fm.pairs(), a, j as int, fresh as int) == target,
            decreases arr.len() - j,
        {
            let f = match text_arg(&arr[j]) {
                Some(s) => s,
                None => {
                    let ghost psf = fm.pairs();
                    proof {
                        assert(a[j as int] == arr[j as int]@);
                        assert(text_of(a[j as int]) is None);
                        assert(hset_pairs(db0, key@, psf, a, j as int, fresh as int) == (
                        upsert(db0, key@, ValueModel::Hash(psf)),
                        RespModel::Error("Invalid field type"@),
                        ));
                    }
                    self.restore_hash(kept, key, fm, Ghost(db0));
                    return mk_error("Invalid field type");
                },
            };
            let v = match text_arg(&arr[j + 1]) {
                Some(s) => s,
                None => {
                    let ghost psf = fm.pairs();
                    proof {
                        assert(a[j as int] == arr[j as int]@);
                        assert(a[j + 1] == arr[j + 1]@);
                        assert(text_of(a[j + 1]) is None);
                        assert(hset_pairs(db0, key@, psf, a, j as int, fresh as int) == (
                        upsert(db0, key@, ValueModel::Hash(psf)),
                        RespModel::Error("Invalid value type"@),
                        ));
                    }
                    self.restore_hash(kept, key, fm, Ghost(db0));
                    return mk_error("Invalid value type");
                },
            };
            let ghost ps_before = fm.pairs();
            let is_new = fm.insert(f.clone(), v.clone());
            if is_new {
                fresh = fresh + 1;
            }
            proof {
                assert(text_of(a[j as int]) == Some(f@));
                assert(text_of(a[j + 1]) == Some(v@));
                assert(hset_pairs(db0, key@, ps_before, a, j as int, (if is_new {
                    fresh - 1
                } else {
                    fresh as int
                })) == hset_pairs(db0, key@, fm.pairs(), a, j + 2, fresh as int));
            }
            j = j + 2;
        }
        let ghost psf = fm.pairs();
        proof {
            assert(hset_pairs(db0, key@, psf, a, j as int, fresh as int) == (
            upsert(db0, key@, ValueModel::Hash(psf)),
            RespModel::Integer(fresh as int),
            ));
        }
        self.restore_hash(kept, key, fm, Ghost(db0));
        RespData::Integer(fresh)
    }

    /// Dispatches one request against the store, as `handle_spec` says.
    pub fn handle(&mut self, resp: &RespData) -> (r: RespData)
        requires
            old(self).wf(),
        ensures
            final(self).wf(),
            ({
                let (db2, m) = handle_spec(old(self).db@, resp@);
                final(self).db@ == db2 && r@ == m
            }),
    {
        let cmd = match Self::command_of(resp) {
            Some(c) => c,
            None => {
                return mk_error("Invalid command");
            },
        };
        let folded = to_uppercase(cmd.as_str());
        if str_eq(folded.as_str(), "PING") {
            self.ping()
        } else if str_eq(folded.as_str(), "SET") {
            self.set(resp)
        } else if str_eq(folded.as_str(), "GET") {
            self.get(resp)
        } else if str_eq(folded.as_str(), "HSET") {
            self.hset(resp)
        } else if str_eq(folded.as_str(), "HGET") {
            self.hget(resp)
        } else if str_eq(folded.as_str(), "HGETALL") {
            self.hgetall(resp)
        } else {
            mk_error("Invalid command")
        }
    }

    /// The command name of a request, when it has one.
    fn command_of(resp: &RespData) -> (r: Option<&String>)
        ensures
            match r {
                Some(s) => command_name(resp@) == Some(s@),
                None => command_name(resp@) is None,
            },
    {
        match resp {
            RespData::SimpleString(s) => Some(s),
            RespData::BulkString(s) => Some(s),
            RespData::Array(arr) => {
                let ghost a = (match resp@ {
                    RespModel::Array(s) => s,
                    _ => Seq::empty(),
                });
                proof {
                    assert(resp@ == RespModel::Array(a));
                    assert(forall|m: int| 0 <= m < a.len() ==> a[m] == arr[m]@);
                }
                if arr.len() > 0 {
                    text_arg(&arr[0])
                } else {
                    None
                }
            },
            _ => None,
        }
    }
}

// ---------------------------------------------------------------------------
// Laws of the dispatcher
// ---------------------------------------------------------------------------

/// After setting `k`, looking `k` up finds exactly the value just set.
pub proof fn lemma_upsert_find_same<T>(es: Seq<(Seq<char>, T)>, k: Seq<char>, val: T)
    ensures
        ({
            let es2 = upsert(es, k, val);
            &&& find_key(es2, k) >= 0
            &&& es2[find_key(es2, k)].1 == val
        }),
{
    let i = find_key(es, k);
    lemma_find_key_props(es, k);
    if i == -1 {
        let es2 = es.push((k, val));
        assert(es2[es.len() as int].0 == k);
        assert(forall|j: int| 0 <= j < es.len() ==> (#[trigger] es2[j]) == es[j]);
        lemma_find_key_is_first(es2, k, es.len() as int);
    } else {
        let es2 = es.update(i, (k, val));
        assert(es2[i].0 == k);
        assert(forall|j: int| 0 <= j < i ==> (#[trigger] es2[j]) == es[j]);
        lemma_find_key_is_first(es2, k, i);
    }
}

/// One ASCII command word is its own uppercase fold.
proof fn lemma_upper_fixed_word(w: Seq<char>)
    requires
        all_ascii(w),
        upper_seq(w) == w,
    ensures
        unicode_upper(w) == w,
{
}

/// The six command words are ASCII and their own uppercase forms.
proof fn lemma_upper_fixed()
    ensures
        unicode_upper("PING"@) == "PING"@,
        unicode_upper("SET"@) == "SET"@,
        unicode_upper("GET"@) == "GET"@,
        unicode_upper("HSET"@) == "HSET"@,
        unicode_upper("HGET"@) == "HGET"@,
        unicode_upper("HGETALL"@) == "HGETALL"@,
{
    reveal_strlit("PING");
    reveal_strlit("SET");
    reveal_strlit("GET");
    reveal_strlit("HSET");
    reveal_strlit("HGET");
    reveal_strlit("HGETALL");
    assert(upper_seq("PING"@) =~= "PING"@);
    assert(upper_seq("SET"@) =~= "SET"@);
    assert(upper_seq("GET"@) =~= "GET"@);
    assert(upper_seq("HSET"@) =~= "HSET"@);
    assert(upper_seq("HGET"@) =~= "HGET"@);
    assert(upper_seq("HGETALL"@) =~= "HGETALL"@);
    assert forall|i: int| 0 <= i < "PING"@.len() implies ascii_char(#[trigger] "PING"@[i]) by {}
    assert forall|i: int| 0 <= i < "SET"@.len() implies ascii_char(#[trigger] "SET"@[i]) by {}
    assert forall|i: int| 0 <= i < "GET"@.len() implies ascii_char(#[trigger] "GET"@[i]) by {}
    assert forall|i: int| 0 <= i < "HSET"@.len() implies ascii_char(#[trigger] "HSET"@[i]) by {}
    assert forall|i: int| 0 <= i < "HGET"@.len() implies ascii_char(#[trigger] "HGET"@[i]) by {}
    assert forall|i: int| 0 <= i < "HGETALL"@.len() implies ascii_char(
        #[trigger] "HGETALL"@[i],
    ) by {}
    lemma_upper_fixed_word("PING"@);
    lemma_upper_fixed_word("SET"@);
    lemma_upper_fixed_word("GET"@);
    lemma_upper_fixed_word("HSET"@);
    lemma_upper_fixed_word("HGET"@);
    lemma_upper_fixed_word("HGETALL"@);
}

/// The six command words are pairwise distinct.
proof fn lemma_commands_distinct()
    ensures
        "SET"@ != "PING"@,
        "GET"@ != "PING"@ && "GET"@ != "SET"@,
        "HSET"@ != "PING"@ && "HSET"@ != "SET"@ && "HSET"@ != "GET"@,
        "HGET"@ != "PING"@ && "HGET"@ != "SET"@ && "HGET"@ != "GET"@ && "HGET"@ != "HSET"@,
        "HGETALL"@ != "PING"@ && "HGETALL"@ != "SET"@ && "HGETALL"@ != "GET"@ && "HGETALL"@
            != "HSET"@ && "HGETALL"@ != "HGET"@,
{
    reveal_strlit("PING");
    reveal_strlit("SET");
    reveal_strlit("GET");
    reveal_strlit("HSET");
    reveal_strlit("HGET");
    reveal_strlit("HGETALL");
    assert("PING"@.len() == 4);
    assert("SET"@.len() == 3);
    assert("GET"@.len() == 3);
    assert("HSET"@.len() == 4);
    assert("HGET"@.len() == 4);
    assert("HGETALL"@.len() == 7);
    assert("GET"@[0] == 'G' && "SET"@[0] == 'S');
    assert("HSET"@[0] == 'H' && "PING"@[0] == 'P' && "HGET"@[0] == 'H');
    assert("HGET"@[1] == 'G' && "HSET"@[1] == 'S');
}

/// Setting a key and then getting it returns exactly the value set: the
/// SET reply is OK, and the following GET on the same key replies with
/// the bulk string just stored, against any starting store.
pub proof fn lemma_set_then_get(db: Seq<(Seq<char>, ValueModel)>, k: Seq<char>, v: Seq<char>)
    ensures
        ({
            let set_req = RespModel::Array(
                seq![
                    RespModel::BulkString("SET"@),
                    RespModel::BulkString(k),
                    RespModel::BulkString(v),
                ],
            );
            let get_req = RespModel::Array(
                seq![RespModel::BulkString("GET"@), RespModel::BulkString(k)],
            );
            let (db2, r1) = handle_spec(db, set_req);
            let (db3, r2) = handle_spec(db2, get_req);
            &&& r1 == RespModel::SimpleString("OK"@)
            &&& db2 == upsert(db, k, ValueModel::Str(v))
            &&& r2 == RespModel::BulkString(v)
            &&& db3 == db2
        }),
{
    lemma_upper_fixed();
    lemma_commands_distinct();
    let db2 = upsert(db, k, ValueModel::Str(v));
    lemma_upsert_find_same(db, k, ValueModel::Str(v));
    assert(store_get(db2, k) == Some(ValueModel::Str(v)));
}

/// Getting a key that was never set replies Null and changes nothing.
pub proof fn lemma_get_missing(db: Seq<(Seq<char>, ValueModel)>, k: Seq<char>)
    requires
        find_key(db, k) == -1,
    ensures
        handle_spec(
            db,
            RespModel::Array(seq![RespModel::BulkString("GET"@), RespModel::BulkString(k)]),
        ) == (db, RespModel::Null),
{
    lemma_upper_fixed();
    lemma_commands_distinct();
}

/// On a fresh key, setting one hash field counts it as new; setting the
/// same field again counts nothing and the last write wins: the HGET
/// that follows sees the second value.
pub proof fn lemma_hset_overwrite(
    db: Seq<(Seq<char>, ValueModel)>,
    h: Seq<char>,
    f1: Seq<char>,
    v1: Seq<char>,
    v2: Seq<char>,
)
    requires
        find_key(db, h) == -1,
    ensures
        ({
            let req1 = RespModel::Array(
                seq![
                    RespModel::BulkString("HSET"@),
                    RespModel::BulkString(h),
                    RespModel::BulkString(f1),
                    RespModel::BulkString(v1),
                ],
            );
            let req2 = RespModel::Array(
                seq![
                    RespModel::BulkString("HSET"@),
                    RespModel::BulkString(h),
                    RespModel::BulkString(f1),
                    RespModel::BulkString(v2),
                ],
            );
            let get_req = RespModel::Array(
                seq![
                    RespModel::BulkString("HGET"@),
                    RespModel::BulkString(h),
                    RespModel::BulkString(f1),
                ],
            );
            let (db2, r1) = handle_spec(db, req1);
            let (db3, r2) = handle_spec(db2, req2);
            let (db4, r3) = handle_spec(db3, get_req);
            &&& r1 == RespModel::Integer(1)
            &&& r2 == RespModel::Integer(0)
            &&& r3 == RespModel::BulkString(v2)
            &&& db4 == db3
        }),
{
    lemma_upper_fixed();
    lemma_commands_distinct();
    let req1 = RespModel::Array(
        seq![
            RespModel::BulkString("HSET"@),
            RespModel::BulkString(h),
            RespModel::BulkString(f1),
            RespModel::BulkString(v1),
        ],
    );
    let req2 = RespModel::Array(
        seq![
            RespModel::BulkString("HSET"@),
            RespModel::BulkString(h),
            RespModel::BulkString(f1),
            RespModel::BulkString(v2),
        ],
    );
    let ps0 = Seq::<(Seq<char>, Seq<char>)>::empty();
    assert(find_key(ps0, f1) == -1);
    let ps1 = upsert(ps0, f1, v1);
    assert(ps1 =~= seq![(f1, v1)]);
    let db2 = upsert(db, h, ValueModel::Hash(ps1));
    assert(command_name(req1) == Some("HSET"@));
    assert(handle_spec(db, req1) == hset_spec(db, req1));
    assert(store_get(db, h) is None);
    assert(hset_spec(db, req1) == hset_pairs(db, h, ps0, req1->Array_0, 2, 0));
    assert(hset_pairs(db, h, ps0, req1->Array_0, 2, 0) == hset_pairs(
        db,
        h,
        ps1,
        req1->Array_0,
        4,
        1,
    ));
    assert(hset_pairs(db, h, ps1, req1->Array_0, 4, 1) == (db2, RespModel::Integer(1)));
    lemma_upsert_find_same(db, h, ValueModel::Hash(ps1));
    assert(store_get(db2, h) == Some(ValueModel::Hash(ps1)));
    assert(ps1[0].0 == f1);
    lemma_find_key_is_first(ps1, f1, 0);
    let ps2 = upsert(ps1, f1, v2);
    assert(ps2 =~= seq![(f1, v2)]);
    let db3 = upsert(db2, h, ValueModel::Hash(ps2));
    assert(handle_spec(db2, req2) == hset_spec(db2, req2));
    assert(hset_spec(db2, req2) == hset_pairs(db2, h, ps1, req2->Array_0, 2, 0));
    assert(hset_pairs(db2, h, ps1, req2->Array_0, 2, 0) == hset_pairs(
        db2,
        h,
        ps2,
        req2->Array_0,
        4,
        0,
    ));
    assert(hset_pairs(db2, h, ps2, req2->Array_0, 4, 0) == (db3, RespModel::Integer(0)));
    lemma_upsert_find_same(db2, h, ValueModel::Hash(ps2));
    assert(store_get(db3, h) == Some(ValueModel::Hash(ps2)));
    assert(ps2[0].0 == f1);
    lemma_find_key_is_first(ps2, f1, 0);
}

/// On a fresh key, setting two distinct hash fields counts both as new,
/// and HGETALL returns exactly those two pairs, field then value.
pub proof fn lemma_hset_two_fields_hgetall(
    db: Seq<(Seq<char>, ValueModel)>,
    h: Seq<char>,
    f1: Seq<char>,
    v1: Seq<char>,
    f2: Seq<char>,
    v2: Seq<char>,
)
    requires
        find_key(db, h) == -1,
        f1 != f2,
    ensures
        ({
            let req = RespModel::Array(
                seq![
                    RespModel::BulkString("HSET"@),
                    RespModel::BulkString(h),
                    RespModel::BulkString(f1),
                    RespModel::BulkString(v1),
                    RespModel::BulkString(f2),
                    RespModel::BulkString(v2),
                ],
            );
            let all_req = RespModel::Array(
                seq![RespModel::BulkString("HGETALL"@), RespModel::BulkString(h)],
            );
            let (db2, r1) = handle_spec(db, req);
            let (db3, r2) = handle_spec(db2, all_req);
            &&& r1 == RespModel::Integer(2)
            &&& r2 == RespModel::Array(
                seq![
                    RespModel::BulkString(f1),
                    RespModel::BulkString(v1),
                    RespModel::BulkString(f2),
                    RespModel::BulkString(v2),
                ],
            )
            &&& db3 == db2
        }),
{
    lemma_upper_fixed();
    lemma_commands_distinct();
    let req = RespModel::Array(
        seq![
            RespModel::BulkString("HSET"@),
            RespModel::BulkString(h),
            RespModel::BulkString(f1),
            RespModel::BulkString(v1),
            RespModel::BulkString(f2),
            RespModel::BulkString(v2),
        ],
    );
    let ps0 = Seq::<(Seq<char>, Seq<char>)>::empty();
    assert(find_key(ps0, f1) == -1);
    let ps1 = upsert(ps0, f1, v1);
    assert(ps1 =~= seq![(f1, v1)]);
    assert(ps1[0].0 == f1);
    assert(ps1[0].0 != f2);
    lemma_find_key_none(ps1, f2);
    let ps2 = upsert(ps1, f2, v2);
    assert(ps2 =~= seq![(f1, v1), (f2, v2)]);
    let db2 = upsert(db, h, ValueModel::Hash(ps2));
    assert(store_get(db, h) is None);
    assert(hset_spec(db, req) == hset_pairs(db, h, ps0, req->Array_0, 2, 0));
    assert(hset_pairs(db, h, ps0, req->Array_0, 2, 0) == hset_pairs(
        db,
        h,
        ps1,
        req->Array_0,
        4,
        1,
    ));
    assert(hset_pairs(db, h, ps1, req->Array_0, 4, 1) == hset_pairs(
        db,
        h,
        ps2,
        req->Array_0,
        6,
        2,
    ));
    assert(hset_pairs(db, h, ps2, req->Array_0, 6, 2) == (db2, RespModel::Integer(2)));
    lemma_upsert_find_same(db, h, ValueModel::Hash(ps2));
    assert(store_get(db2, h) == Some(ValueModel::Hash(ps2)));
    assert(hash_items(ps2) =~= seq![
        RespModel::BulkString(f1),
        RespModel::BulkString(v1),
        RespModel::BulkString(f2),
        RespModel::BulkString(v2),
    ]);
}

/// HGET on an absent key replies Null; on a key holding plain text, the
/// WRONGTYPE error; on a mapping that lacks the field, Null. The store
/// is unchanged in every case.
pub proof fn lemma_hget_cases(db: Seq<(Seq<char>, ValueModel)>, h: Seq<char>, f: Seq<char>)
    ensures
        ({
            let req = RespModel::Array(
                seq![
                    RespModel::BulkString("HGET"@),
                    RespModel::BulkString(h),
                    RespModel::BulkString(f),
                ],
            );
            let (db2, r) = handle_spec(db, req);
            &&& db2 == db
            &&& find_key(db, h) == -1 ==> r == RespModel::Null
            &&& (store_get(db, h) matches Some(ValueModel::Str(_))) ==> r == RespModel::Error(
                "WRONGTYPE Operation against a key holding the wrong kind of value"@,
            )
            &&& forall|ps: Seq<(Seq<char>, Seq<char>)>|
                store_get(db, h) == Some(ValueModel::Hash(ps)) && find_key(ps, f) == -1 ==> r
                    == RespModel::Null
        }),
{
    lemma_upper_fixed();
    lemma_commands_distinct();
}

/// HGETALL on an absent key replies with an empty array: not Null and
/// not an error. The store is unchanged.
pub proof fn lemma_hgetall_missing(db: Seq<(Seq<char>, ValueModel)>, k: Seq<char>)
    requires
        find_key(db, k) == -1,
    ensures
        handle_spec(
            db,
            RespModel::Array(seq![RespModel::BulkString("HGETALL"@), RespModel::BulkString(k)]),
        ) == (db, RespModel::Array(Seq::<RespModel>::empty())),
{
    lemma_upper_fixed();
    lemma_commands_distinct();
}

/// A SET with one extra argument gets the generic syntax error, a SET
/// with a missing value the named arity error, and the two error texts
/// differ, so the two failures stay distinguishable.
pub proof fn lemma_set_arity_vs_syntax(
    db: Seq<(Seq<char>, ValueModel)>,
    k: Seq<char>,
    v1: Seq<char>,
    v2: Seq<char>,
)
    ensures
        handle_spec(
            db,
            RespModel::Array(
                seq![
                    RespModel::BulkString("SET"@),
                    RespModel::BulkString(k),
                    RespModel::BulkString(v1),
                    RespModel::BulkString(v2),
                ],
            ),
        ) == (db, RespModel::Error("syntax error"@)),
        handle_spec(
            db,
            RespModel::Array(seq![RespModel::BulkString("SET"@), RespModel::BulkString(k)]),
        ) == (db, RespModel::Error("wrong number of arguments for 'set' command"@)),
        "syntax error"@ != "wrong number of arguments for 'set' command"@,
{
    lemma_upper_fixed();
    lemma_commands_distinct();
    reveal_strlit("syntax error");
    reveal_strlit("wrong number of arguments for 'set' command");
    assert("syntax error"@.len() == 12);
    assert("wrong number of arguments for 'set' command"@.len() == 43);
}

/// Applying the field/value pairs reads nothing before index 1: two
/// argument arrays that agree from index 1 on fold identically.
proof fn lemma_hset_pairs_congruent(
    db: Seq<(Seq<char>, ValueModel)>,
    k: Seq<char>,
    ps: Seq<(Seq<char>, Seq<char>)>,
    a1: Seq<RespModel>,
    a2: Seq<RespModel>,
    i: int,
    fresh: int,
)
    requires
        a1.len() == a2.len(),
        forall|j: int| 1 <= j < a1.len() ==> a1[j] == a2[j],
        i >= 1,
    ensures
        hset_pairs(db, k, ps, a1, i, fresh) == hset_pairs(db, k, ps, a2, i, fresh),
    decreases a1.len() - i,
{
    if 0 <= i && i < a1.len() && i + 1 < a1.len() {
        if text_of(a1[i]) is Some && text_of(a1[i + 1]) is Some {
            let f = text_of(a1[i])->Some_0;
            let v = text_of(a1[i + 1])->Some_0;
            let fresh2 = if find_key(ps, f) == -1 {
                fresh + 1
            } else {
                fresh
            };
            lemma_hset_pairs_congruent(db, k, upsert(ps, f, v), a1, a2, i + 2, fresh2);
        }
    }
}

/// Dispatch depends on the command name only through its uppercase fold:
/// two array requests that agree on every element after the first, and
/// whose command names fold to the same uppercase text, produce the same
/// reply and leave the same store.
pub proof fn lemma_dispatch_case_insensitive(
    db: Seq<(Seq<char>, ValueModel)>,
    a1: Seq<RespModel>,
    a2: Seq<RespModel>,
)
    requires
        a1.len() == a2.len(),
        a1.len() > 0,
        forall|j: int| 1 <= j < a1.len() ==> a1[j] == a2[j],
        command_name(RespModel::Array(a1)) is Some,
        command_name(RespModel::Array(a2)) is Some,
        unicode_upper(command_name(RespModel::Array(a1))->Some_0) == unicode_upper(
            command_name(RespModel::Array(a2))->Some_0,
        ),
    ensures
        handle_spec(db, RespModel::Array(a1)) == handle_spec(db, RespModel::Array(a2)),
{
    let r1 = RespModel::Array(a1);
    let r2 = RespModel::Array(a2);
    let u = unicode_upper(command_name(r1)->Some_0);
    if u == "HSET"@ {
        if a1.len() >= 4 && a1.len() % 2 == 0 && text_of(a1[1]) is Some {
            assert(a1[1] == a2[1]);
            let k = text_of(a1[1])->Some_0;
            match store_get(db, k) {
                Some(ValueModel::Str(_)) => {},
                Some(ValueModel::Hash(ps)) => {
                    lemma_hset_pairs_congruent(db, k, ps, a1, a2, 2, 0);
                },
                None => {
                    lemma_hset_pairs_congruent(db, k, Seq::empty(), a1, a2, 2, 0);
                },
            }
        }
        assert(hset_spec(db, r1) == hset_spec(db, r2));
    } else {
        assert(a1.len() >= 2 ==> a1[1] == a2[1]);
        assert(a1.len() >= 3 ==> a1[2] == a2[2]);
        assert(set_spec(db, r1) == set_spec(db, r2));
        assert(get_spec(db, r1) == get_spec(db, r2));
        assert(hget_spec(db, r1) == hget_spec(db, r2));
        assert(hgetall_spec(db, r1) == hgetall_spec(db, r2));
    }
}

/// A request whose command name folds to PING is answered PONG and
/// changes nothing, whatever its remaining elements: PING validates no
/// arguments.
pub proof fn lemma_ping_any_shape(db: Seq<(Seq<char>, ValueModel)>, req: RespModel)
    requires
        command_name(req) is Some,
        unicode_upper(command_name(req)->Some_0) == "PING"@,
    ensures
        handle_spec(db, req) == (db, RespModel::SimpleString("PONG"@)),
{
}

/// A request whose command name, folded to uppercase as
/// `str::to_uppercase` folds it, is none of the six known commands is
/// refused with Error("Invalid command"), whatever its casing; so is a
/// request with no command name at all. The store is unchanged.
pub proof fn lemma_unknown_command(db: Seq<(Seq<char>, ValueModel)>, req: RespModel)
    requires
        match command_name(req) {
            Some(cmd) => {
                let u = unicode_upper(cmd);
                &&& u != "PING"@
                &&& u != "SET"@
                &&& u != "GET"@
                &&& u != "HSET"@
                &&& u != "HGET"@
                &&& u != "HGETALL"@
            },
            None => true,
        },
    ensures
        handle_spec(db, req) == (db, RespModel::Error("Invalid command"@)),
{
}

} // verus!
