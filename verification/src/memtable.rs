//! The in-memory reference backend: tables held as vectors of entries kept
//! in ascending key order, verified against the storage contract.

use vstd::prelude::*;
use vstd::string::StringExecFns;
use crate::errors::KvError;
use crate::lex::{lex_lt, lemma_lex_lt_irrefl, lemma_lex_lt_total, lemma_lex_lt_trans, str_eq,
    str_lt};
use crate::storage::{pairs_match_table, st_del, st_get, st_set, table_of, Storage, StoreV};
use crate::value::{Kvpair, Value, ValueV};

verus! {

/// One table's entries, in strictly ascending key order.
pub open spec fn entries_sorted(es: Seq<(String, Value)>) -> bool {
    forall|i: int, j: int| 0 <= i < j < es.len() ==> lex_lt(es[i].0@, es[j].0@)
}

/// The keyspace an entry list models.
pub open spec fn entries_map(es: Seq<(String, Value)>) -> Map<Seq<char>, ValueV>
    decreases es.len(),
{
    if es.len() == 0 {
        Map::empty()
    } else {
        entries_map(es.drop_last()).insert(es.last().0@, es.last().1@)
    }
}

/// Entry keys are pairwise distinct.
pub open spec fn entries_unique(es: Seq<(String, Value)>) -> bool {
    forall|i: int, j: int| 0 <= i < j < es.len() ==> es[i].0@ != es[j].0@
}

/// Table names are pairwise distinct.
pub open spec fn tables_unique(ts: Seq<(String, Vec<(String, Value)>)>) -> bool {
    forall|i: int, j: int| 0 <= i < j < ts.len() ==> ts[i].0@ != ts[j].0@
}

/// The store a table list models.
pub open spec fn tables_map(ts: Seq<(String, Vec<(String, Value)>)>) -> StoreV
    decreases ts.len(),
{
    if ts.len() == 0 {
        Map::empty()
    } else {
        tables_map(ts.drop_last()).insert(ts.last().0@, entries_map(ts.last().1@))
    }
}

/// Strictly sorted entries have pairwise distinct keys.
proof fn lemma_sorted_unique(es: Seq<(String, Value)>)
    requires
        entries_sorted(es),
    ensures
        entries_unique(es),
{
    assert forall|i: int, j: int| 0 <= i < j < es.len() implies es[i].0@ != es[j].0@ by {
        if es[i].0@ == es[j].0@ {
            lemma_lex_lt_irrefl(es[i].0@);
        }
    }
}

proof fn lemma_entries_map_index(es: Seq<(String, Value)>, i: int)
    requires
        entries_unique(es),
        0 <= i < es.len(),
    ensures
        entries_map(es).contains_key(es[i].0@),
        entries_map(es)[es[i].0@] == es[i].1@,
    decreases es.len(),
{
    if i < es.len() - 1 {
        lemma_entries_map_index(es.drop_last(), i);
    }
}

proof fn lemma_entries_map_absent(es: Seq<(String, Value)>, k: Seq<char>)
    requires
        forall|i: int| 0 <= i < es.len() ==> es[i].0@ != k,
    ensures
        !entries_map(es).contains_key(k),
    decreases es.len(),
{
    if es.len() > 0 {
        lemma_entries_map_absent(es.drop_last(), k);
    }
}

proof fn lemma_entries_map_domain(es: Seq<(String, Value)>, k: Seq<char>)
    requires
        entries_map(es).contains_key(k),
    ensures
        exists|i: int| 0 <= i < es.len() && #[trigger] es[i].0@ == k,
    decreases es.len(),
{
    if es.len() > 0 {
        if es.last().0@ == k {
            assert(es[es.len() - 1].0@ == k);
        } else {
            lemma_entries_map_domain(es.drop_last(), k);
        }
    }
}

proof fn lemma_entries_map_update(es: Seq<(String, Value)>, i: int, x: (String, Value))
    requires
        entries_unique(es),
        0 <= i < es.len(),
        x.0@ == es[i].0@,
    ensures
        entries_map(es.update(i, x)) =~= entries_map(es).insert(x.0@, x.1@),
    decreases es.len(),
{
    if i == es.len() - 1 {
        assert(es.update(i, x).drop_last() =~= es.drop_last());
        assert(es.update(i, x).last() == x);
    } else {
        assert(es.update(i, x).drop_last() =~= es.drop_last().update(i, x));
        assert(es.update(i, x).last() == es.last());
        lemma_entries_map_update(es.drop_last(), i, x);
        assert(x.0@ != es.last().0@);
    }
}

proof fn lemma_entries_map_insert(es: Seq<(String, Value)>, i: int, x: (String, Value))
    requires
        forall|j: int| 0 <= j < es.len() ==> es[j].0@ != x.0@,
        0 <= i <= es.len(),
    ensures
        entries_map(es.insert(i, x)) =~= entries_map(es).insert(x.0@, x.1@),
    decreases es.len(),
{
    if i == es.len() {
        assert(es.insert(i, x).drop_last() =~= es);
        assert(es.insert(i, x).last() == x);
    } else {
        assert(es.insert(i, x).drop_last() =~= es.drop_last().insert(i, x));
        assert(es.insert(i, x).last() == es.last());
        lemma_entries_map_insert(es.drop_last(), i, x);
        assert(x.0@ != es.last().0@);
    }
}

proof fn lemma_entries_map_remove(es: Seq<(String, Value)>, i: int)
    requires
        entries_unique(es),
        0 <= i < es.len(),
    ensures
        entries_map(es.remove(i)) =~= entries_map(es).remove(es[i].0@),
    decreases es.len(),
{
    if i == es.len() - 1 {
        assert(es.remove(i) =~= es.drop_last());
        lemma_entries_map_absent(es.drop_last(), es[i].0@);
    } else {
        assert(es.remove(i).drop_last() =~= es.drop_last().remove(i));
        assert(es.remove(i).last() == es.last());
        lemma_entries_map_remove(es.drop_last(), i);
        assert(es[i].0@ != es.last().0@);
    }
}

proof fn lemma_tables_map_index(ts: Seq<(String, Vec<(String, Value)>)>, i: int)
    requires
        tables_unique(ts),
        0 <= i < ts.len(),
    ensures
        tables_map(ts).contains_key(ts[i].0@),
        tables_map(ts)[ts[i].0@] == entries_map(ts[i].1@),
    decreases ts.len(),
{
    if i < ts.len() - 1 {
        lemma_tables_map_index(ts.drop_last(), i);
    }
}

proof fn lemma_tables_map_absent(ts: Seq<(String, Vec<(String, Value)>)>, t: Seq<char>)
    requires
        forall|j: int| 0 <= j < ts.len() ==> ts[j].0@ != t,
    ensures
        !tables_map(ts).contains_key(t),
    decreases ts.len(),
{
    if ts.len() > 0 {
        lemma_tables_map_absent(ts.drop_last(), t);
    }
}

proof fn lemma_tables_map_update(
    ts: Seq<(String, Vec<(String, Value)>)>,
    i: int,
    x: (String, Vec<(String, Value)>),
)
    requires
        tables_unique(ts),
        0 <= i < ts.len(),
        x.0@ == ts[i].0@,
    ensures
        tables_map(ts.update(i, x)) =~= tables_map(ts).insert(x.0@, entries_map(x.1@)),
    decreases ts.len(),
{
    if i == ts.len() - 1 {
        assert(ts.update(i, x).drop_last() =~= ts.drop_last());
        assert(ts.update(i, x).last() == x);
    } else {
        assert(ts.update(i, x).drop_last() =~= ts.drop_last().update(i, x));
        assert(ts.update(i, x).last() == ts.last());
        lemma_tables_map_update(ts.drop_last(), i, x);
        assert(x.0@ != ts.last().0@);
    }
}

proof fn lemma_tables_map_push(
    ts: Seq<(String, Vec<(String, Value)>)>,
    x: (String, Vec<(String, Value)>),
)
    ensures
        tables_map(ts.push(x)) =~= tables_map(ts).insert(x.0@, entries_map(x.1@)),
{
    assert(ts.push(x).drop_last() =~= ts);
    assert(ts.push(x).last() == x);
}

/// The in-memory backend: a list of uniquely named tables, each a list of
/// entries in strictly ascending key order.
pub struct MemTable {
    tables: Vec<(String, Vec<(String, Value)>)>,
}

impl MemTable {
    /// The store this backend currently models.
    pub closed spec fn spec_st(&self) -> StoreV {
        tables_map(self.tables@)
    }

    /// Table names unique; every table's entries strictly sorted by key.
    pub closed spec fn wf(&self) -> bool {
        &&& tables_unique(self.tables@)
        &&& forall|i: int|
            0 <= i < self.tables@.len() ==> entries_sorted(#[trigger] self.tables@[i].1@)
    }

    /// A fresh, empty backend.
    pub fn new() -> (r: MemTable)
        ensures
            r.wf(),
            r.spec_st() == Map::<Seq<char>, Map<Seq<char>, ValueV>>::empty(),
    {
        MemTable { tables: Vec::new() }
    }

    /// The index of a table, if it exists.
    fn find_table(&self, table: &str) -> (r: Option<usize>)
        ensures
            match r {
                Some(i) => 0 <= i < self.tables@.len() && self.tables@[i as int].0@ == table@,
                None => forall|j: int| 0 <= j < self.tables@.len() ==> self.tables@[j].0@ != table@,
            },
    {
        let mut i: usize = 0;
        while i < self.tables.len()
            invariant
                i <= self.tables@.len(),
                forall|j: int| 0 <= j < i ==> self.tables@[j].0@ != table@,
            decreases self.tables@.len() - i,
        {
            if str_eq(self.tables[i].0.as_str(), table) {
                return Some(i);
            }
            i = i + 1;
        }
        None
    }
}

/// The index of a key in an entry list, if present.
fn find_key(es: &Vec<(String, Value)>, key: &str) -> (r: Option<usize>)
    ensures
        match r {
            Some(j) => 0 <= j < es@.len() && es@[j as int].0@ == key@,
            None => forall|j: int| 0 <= j < es@.len() ==> es@[j].0@ != key@,
        },
{
    let mut j: usize = 0;
    while j < es.len()
        invariant
            j <= es@.len(),
            forall|p: int| 0 <= p < j ==> es@[p].0@ != key@,
        decreases es@.len() - j,
    {
        if str_eq(es[j].0.as_str(), key) {
            return Some(j);
        }
        j = j + 1;
    }
    None
}

/// The position at which `key` stands or would be inserted: the first index
/// whose entry key is not below `key`.
fn find_pos(es: &Vec<(String, Value)>, key: &str) -> (r: usize)
    requires
        entries_sorted(es@),
    ensures
        0 <= r <= es@.len(),
        forall|j: int| 0 <= j < r ==> lex_lt(es@[j].0@, key@),
        r < es@.len() ==> !lex_lt(es@[r as int].0@, key@),
{
    let mut p: usize = 0;
    while p < es.len()
        invariant
            p <= es@.len(),
            forall|j: int| 0 <= j < p ==> lex_lt(es@[j].0@, key@),
        decreases es@.len() - p,
    {
        if !str_lt(es[p].0.as_str(), key) {
            return p;
        }
        p = p + 1;
    }
    p
}

impl Storage for MemTable {
    open spec fn st(&self) -> StoreV {
        self.spec_st()
    }

    open spec fn inv(&self) -> bool {
        self.wf()
    }

    open spec fn infallible(&self) -> bool {
        true
    }

    fn get(&self, table: &str, key: &str) -> (r: Result<Option<Value>, KvError>) {
        match self.find_table(table) {
            Some(i) => {
                proof {
                    lemma_tables_map_index(self.tables@, i as int);
                    lemma_sorted_unique(self.tables@[i as int].1@);
                }
                let es = &self.tables[i].1;
                match find_key(es, key) {
                    Some(j) => {
                        proof {
                            lemma_entries_map_index(es@, j as int);
                        }
                        Ok(Some(es[j].1.dup()))
                    },
                    None => {
                        proof {
                            lemma_entries_map_absent(es@, key@);
                        }
                        Ok(None)
                    },
                }
            },
            None => {
                proof {
                    lemma_tables_map_absent(self.tables@, table@);
                }
                Ok(None)
            },
        }
    }

    fn set(&mut self, table: &str, key: &str, value: Value) -> (r: Result<
        Option<Value>,
        KvError,
    >) {
        let ghost st0 = self.spec_st();
        let ghost ts0 = self.tables@;
        match self.find_table(table) {
            Some(i) => {
                proof {
                    lemma_tables_map_index(ts0, i as int);
                    lemma_sorted_unique(ts0[i as int].1@);
                }
                let (name, mut es) = self.tables.remove(i);
                let ghost es0 = es@;
                let pos = find_pos(&es, key);
                let prev: Option<Value>;
                if pos < es.len() && str_eq(es[pos].0.as_str(), key) {
                    prev = Some(es[pos].1.dup());
                    proof {
                        lemma_entries_map_index(es0, pos as int);
                    }
                    let _replaced = es.remove(pos);
                    es.insert(pos, (String::from_str(key), value));
                    proof {
                        assert(es@ =~= es0.update(pos as int, es@[pos as int]));
                        lemma_entries_map_update(es0, pos as int, es@[pos as int]);
                        assert(entries_sorted(es@)) by {
                            assert(forall|j: int|
                                0 <= j < es@.len() ==> es@[j].0@ == es0[j].0@);
                        }
                    }
                } else {
                    prev = None;
                    proof {
                        assert forall|j: int| 0 <= j < es0.len() implies es0[j].0@ != key@ by {
                            if j < pos {
                                lemma_lex_lt_irrefl(key@);
                            } else if j == pos {
                                lemma_lex_lt_total(es0[j].0@, key@);
                            } else {
                                lemma_lex_lt_total(es0[pos as int].0@, key@);
                                lemma_lex_lt_trans(key@, es0[pos as int].0@, es0[j].0@);
                                lemma_lex_lt_irrefl(key@);
                            }
                        }
                        lemma_entries_map_absent(es0, key@);
                    }
                    es.insert(pos, (String::from_str(key), value));
                    proof {
                        lemma_entries_map_insert(es0, pos as int, es@[pos as int]);
                        assert(entries_sorted(es@)) by {
                            assert forall|p: int, q: int|
                                0 <= p < q < es@.len() implies lex_lt(es@[p].0@, es@[q].0@) by {
                                if p < pos && q == pos {
                                } else if p == pos && q > pos {
                                    if q - 1 > pos {
                                        lemma_lex_lt_total(es0[pos as int].0@, key@);
                                        lemma_lex_lt_trans(
                                            key@,
                                            es0[pos as int].0@,
                                            es0[q - 1].0@,
                                        );
                                    } else {
                                        lemma_lex_lt_total(es0[pos as int].0@, key@);
                                    }
                                }
                            }
                        }
                    }
                }
                let ghost es1 = es@;
                self.tables.insert(i, (name, es));
                proof {
                    assert(self.tables@ =~= ts0.update(i as int, (name, self.tables@[i as int].1)));
                    assert(self.tables@[i as int].1@ == es1);
                    lemma_tables_map_update(ts0, i as int, self.tables@[i as int]);
                    assert(self.spec_st() =~= st_set(st0, table@, key@, value@));
                }
                Ok(prev)
            },
            None => {
                proof {
                    lemma_tables_map_absent(ts0, table@);
                }
                let mut es: Vec<(String, Value)> = Vec::new();
                es.push((String::from_str(key), value));
                let ghost es1 = es@;
                self.tables.push((String::from_str(table), es));
                proof {
                    lemma_tables_map_push(ts0, self.tables@.last());
                    assert(es1.len() == 1);
                    assert(es1.last().0@ == key@);
                    assert(es1.last().1@ == value@);
                    assert(es1.drop_last() =~= Seq::<(String, Value)>::empty());
                    assert(entries_map(es1.drop_last()) == Map::<Seq<char>, ValueV>::empty());
                    assert(entries_map(es1) =~= Map::<Seq<char>, ValueV>::empty().insert(
                        key@,
                        value@,
                    ));
                    assert(self.spec_st() =~= st_set(st0, table@, key@, value@));
                }
                Ok(None)
            },
        }
    }

    fn del(&mut self, table: &str, key: &str) -> (r: Result<Option<Value>, KvError>) {
        let ghost st0 = self.spec_st();
        let ghost ts0 = self.tables@;
        match self.find_table(table) {
            Some(i) => {
                proof {
                    lemma_tables_map_index(ts0, i as int);
                    lemma_sorted_unique(ts0[i as int].1@);
                }
                let (name, mut es) = self.tables.remove(i);
                let ghost es0 = es@;
                match find_key(&es, key) {
                    Some(j) => {
                        proof {
                            lemma_entries_map_index(es0, j as int);
                            lemma_entries_map_remove(es0, j as int);
                        }
                        let removed = es.remove(j);
                        proof {
                            assert(entries_sorted(es@)) by {
                                assert forall|p: int, q: int|
                                    0 <= p < q < es@.len() implies lex_lt(es@[p].0@, es@[q].0@) by {
                                    assert(es@[p] == if p < j {
                                        es0[p]
                                    } else {
                                        es0[p + 1]
                                    });
                                    assert(es@[q] == if q < j {
                                        es0[q]
                                    } else {
                                        es0[q + 1]
                                    });
                                }
                            }
                        }
                        let ghost es1 = es@;
                        self.tables.insert(i, (name, es));
                        proof {
                            assert(self.tables@ =~= ts0.update(
                                i as int,
                                (name, self.tables@[i as int].1),
                            ));
                            lemma_tables_map_update(ts0, i as int, self.tables@[i as int]);
                            assert(self.spec_st() =~= st_del(st0, table@, key@));
                        }
                        Ok(Some(removed.1))
                    },
                    None => {
                        proof {
                            lemma_entries_map_absent(es0, key@);
                        }
                        self.tables.insert(i, (name, es));
                        proof {
                            assert(self.tables@ =~= ts0);
                        }
                        Ok(None)
                    },
                }
            },
            None => {
                proof {
                    lemma_tables_map_absent(ts0, table@);
                }
                Ok(None)
            },
        }
    }

    fn contains(&self, table: &str, key: &str) -> (r: Result<bool, KvError>) {
        match self.find_table(table) {
            Some(i) => {
                proof {
                    lemma_tables_map_index(self.tables@, i as int);
                    lemma_sorted_unique(self.tables@[i as int].1@);
                }
                let es = &self.tables[i].1;
                match find_key(es, key) {
                    Some(j) => {
                        proof {
                            lemma_entries_map_index(es@, j as int);
                        }
                        Ok(true)
                    },
                    None => {
                        proof {
                            lemma_entries_map_absent(es@, key@);
                        }
                        Ok(false)
                    },
                }
            },
            None => {
                proof {
                    lemma_tables_map_absent(self.tables@, table@);
                }
                Ok(false)
            },
        }
    }

    fn get_all(&self, table: &str) -> (r: Result<Vec<Kvpair>, KvError>) {
        let mut out: Vec<Kvpair> = Vec::new();
        match self.find_table(table) {
            Some(i) => {
                proof {
                    lemma_tables_map_index(self.tables@, i as int);
                    lemma_sorted_unique(self.tables@[i as int].1@);
                }
                let es = &self.tables[i].1;
                let mut j: usize = 0;
                while j < es.len()
                    invariant
                        j <= es@.len(),
                        out@.len() == j,
                        forall|p: int|
                            0 <= p < j ==> out@[p]@.key == es@[p].0@ && out@[p]@.value == es@[
                                p
                            ].1@,
                    decreases es@.len() - j,
                {
                    out.push(Kvpair { key: es[j].0.clone(), value: es[j].1.dup() });
                    j = j + 1;
                }
                proof {
                    let ps = out@.map_values(|p: Kvpair| p@);
                    assert(ps.len() == es@.len());
                    assert forall|p: int| 0 <= p < ps.len() implies table_of(
                        self.st(),
                        table@,
                    ).contains_key(#[trigger] ps[p].key) && table_of(self.st(), table@)[ps[p].key]
                        == ps[p].value by {
                        lemma_entries_map_index(es@, p);
                    }
                    assert forall|k: Seq<char>| table_of(self.st(), table@).contains_key(
                        k,
                    ) implies exists|p: int| 0 <= p < ps.len() && #[trigger] ps[p].key == k by {
                        lemma_entries_map_domain(es@, k);
                        let w = choose|w: int| 0 <= w < es@.len() && #[trigger] es@[w].0@ == k;
                        assert(ps[w].key == k);
                    }
                }
                Ok(out)
            },
            None => {
                proof {
                    lemma_tables_map_absent(self.tables@, table@);
                    assert(out@.map_values(|p: Kvpair| p@).len() == 0);
                }
                Ok(out)
            },
        }
    }
}

} // verus!
