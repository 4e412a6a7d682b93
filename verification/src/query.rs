//! The fetch/query engine.
//!
//! A `Query` value describes a shape: per component type, whether exclusive
//! access is requested and whether the type is optional. A query visits, in
//! creation order, every non-empty table whose columns cover the shape's
//! required types, and within a table every row in row-index order, yielding
//! the entity and a copy of each requested component's bytes (or a missing
//! marker for an absent optional type). The shape's access guards are taken
//! at construction and given back exactly once, at release.

use vstd::prelude::*;

use crate::entity::{Entities, EntityId};
use crate::store::Stores;
use crate::tables::{Table, TableId, Tables};

verus! {

/// One requirement of a fetch shape: a component type, the access mode, and
/// whether the type is optional.
#[derive(Clone, Copy, PartialEq, Eq, Structural, Debug)]
pub struct QueryTerm {
    /// The identity of the requested component type.
    pub key: u64,
    /// Whether exclusive (write) access is requested.
    pub writes: bool,
    /// Whether a table lacking the type still qualifies.
    pub optional: bool,
}

/// Some term of the shape asks for the component type with identity `t`.
pub open spec fn terms_have_key(terms: Seq<QueryTerm>, t: u64) -> bool {
    exists|j: int| 0 <= j < terms.len() && (#[trigger] terms[j]).key == t
}

/// A fetch shape: the ordered list of requirements of one query.
pub struct Query {
    terms: Vec<QueryTerm>,
}

impl Query {
    /// The requirements in order.
    pub closed spec fn term_seq(self) -> Seq<QueryTerm> {
        self.terms@
    }

    /// No component type is requested twice.
    pub open spec fn wf(self) -> bool {
        forall|a: int, b: int|
            0 <= a < b < self.term_seq().len() ==> (#[trigger] self.term_seq()[a]).key
                != (#[trigger] self.term_seq()[b]).key
    }

    /// A shape requesting nothing.
    pub fn new() -> (r: Query)
        ensures
            r.wf(),
            r.term_seq() == Seq::<QueryTerm>::empty(),
    {
        Query { terms: Vec::new() }
    }

    /// Whether the shape already requests the component type with identity
    /// `t` (what `add` demands be false of its term's key).
    pub fn requests(&self, t: u64) -> (r: bool)
        ensures
            r == terms_have_key(self.term_seq(), t),
    {
        let n = self.terms.len();
        for j in 0..n
            invariant
                n == self.terms@.len(),
                forall|q: int| 0 <= q < j ==> (#[trigger] self.terms@[q]).key != t,
        {
            if self.terms[j].key == t {
                proof {
                    assert(self.term_seq()[j as int].key == t);
                }
                return true;
            }
        }
        proof {
            assert(!terms_have_key(self.term_seq(), t)) by {
                assert(forall|q: int| 0 <= q < self.terms@.len() ==> (#[trigger] self.terms@[q]).key != t);
            }
        }
        false
    }

    /// Whether every term of the shape could take its guard right now (what
    /// query construction demands).
    pub fn available(&self, stores: &Stores) -> (r: bool)
        requires
            stores.wf(),
        ensures
            r == shape_available(*stores, self.term_seq()),
    {
        let n = self.terms.len();
        for j in 0..n
            invariant
                stores.wf(),
                n == self.terms@.len(),
                forall|q: int|
                    0 <= q < j ==> {
                        let tm = #[trigger] self.terms@[q];
                        if tm.writes {
                            stores.can_write(tm.key)
                        } else {
                            stores.can_read(tm.key)
                        }
                    },
        {
            let term = self.terms[j];
            let ok = if term.writes {
                stores.write_available(term.key)
            } else {
                stores.read_available(term.key)
            };
            if !ok {
                return false;
            }
        }
        true
    }

    /// Append one requirement.
    pub fn add(&mut self, term: QueryTerm)
        requires
            old(self).wf(),
            !terms_have_key(old(self).term_seq(), term.key),
        ensures
            final(self).wf(),
            final(self).term_seq() == old(self).term_seq().push(term),
    {
        self.terms.push(term);
        proof {
            assert forall|a: int, b: int|
                0 <= a < b < self.term_seq().len() implies (#[trigger] self.term_seq()[a]).key
                != (#[trigger] self.term_seq()[b]).key by {
                assert(self.term_seq()[a] == old(self).term_seq()[a]);
                if b < self.term_seq().len() - 1 {
                    assert(self.term_seq()[b] == old(self).term_seq()[b]);
                } else {
                    assert(self.term_seq()[b] == term);
                    assert(!(old(self).term_seq()[a].key == term.key));
                }
            }
        }
    }
}

/// A table qualifies for a shape: it is non-empty and has a column for every
/// required (non-optional) type. Optional types never disqualify a table.
pub open spec fn matches_table(t: Table, terms: Seq<QueryTerm>) -> bool {
    &&& t.row_ids().len() > 0
    &&& forall|j: int|
        0 <= j < terms.len() ==> ((#[trigger] terms[j]).optional || t.has_type(terms[j].key))
}

/// Every column of every table points at a store of that column's component
/// type, large enough for the table's rows.
pub open spec fn tables_linked(tables: Tables, stores: Stores) -> bool {
    forall|t: int, c: int|
        #![trigger tables.table_seq()[t].column_ids()[c]]
        0 <= t < tables.table_seq().len() && 0 <= c < tables.table_seq()[t].column_ids().len()
            ==> {
            let tab = tables.table_seq()[t];
            let sv = tab.column_ids()[c].value();
            &&& sv < stores.store_seq().len()
            &&& stores.store_seq()[sv as int].item_type() == tab.type_seq()[c]
            &&& stores.store_seq()[sv as int].capacity() >= tab.row_ids().len()
        }
}

/// Every mapped entity's table exists and holds a row for it.
pub open spec fn entities_linked(entities: Entities, tables: Tables) -> bool {
    forall|id: EntityId|
        #[trigger] entities.table_map().contains_key(id) ==> {
            let tv = entities.table_map()[id].value();
            &&& tv < tables.table_seq().len()
            &&& tables.table_seq()[tv as int].row_ids().contains(id)
        }
}

/// Every term of a shape is available for acquisition in the given mode.
pub open spec fn shape_available(stores: Stores, terms: Seq<QueryTerm>) -> bool {
    forall|j: int|
        0 <= j < terms.len() ==> {
            let tm = #[trigger] terms[j];
            if tm.writes {
                stores.can_write(tm.key)
            } else {
                stores.can_read(tm.key)
            }
        }
}

/// Every term of a shape is currently held in its mode.
pub open spec fn shape_held(stores: Stores, terms: Seq<QueryTerm>) -> bool {
    forall|j: int|
        0 <= j < terms.len() ==> {
            let tm = #[trigger] terms[j];
            if tm.writes {
                stores.write_held(tm.key)
            } else {
                stores.read_held(tm.key)
            }
        }
}

/// How guard state changes when a shape's guards are taken: each term's guard
/// gains one shared hold or becomes exclusively held, every other guard and
/// all the stores stay as they were.
pub open spec fn locks_acquired(before: Stores, after: Stores, terms: Seq<QueryTerm>) -> bool {
    &&& after.wf()
    &&& after.store_seq() == before.store_seq()
    &&& after.lock_map().dom() == before.lock_map().dom()
    &&& forall|t: u64|
        before.lock_map().contains_key(t) && !terms_have_key(terms, t)
            ==> #[trigger] after.lock_map()[t] == before.lock_map()[t]
    &&& forall|j: int|
        0 <= j < terms.len() ==> {
            let tm = #[trigger] terms[j];
            before.lock_map().contains_key(tm.key) ==> if tm.writes {
                after.lock_map()[tm.key].is_writer() && after.lock_map()[tm.key].readers() == 0
            } else {
                after.lock_map()[tm.key].readers() == before.lock_map()[tm.key].readers() + 1
                    && !after.lock_map()[tm.key].is_writer()
            }
        }
}

/// How guard state changes when a shape's guards are given back: each term's
/// guard loses its hold, every other guard and all the stores stay as they
/// were.
pub open spec fn locks_released(before: Stores, after: Stores, terms: Seq<QueryTerm>) -> bool {
    &&& after.wf()
    &&& after.store_seq() == before.store_seq()
    &&& after.lock_map().dom() == before.lock_map().dom()
    &&& forall|t: u64|
        before.lock_map().contains_key(t) && !terms_have_key(terms, t)
            ==> #[trigger] after.lock_map()[t] == before.lock_map()[t]
    &&& forall|j: int|
        0 <= j < terms.len() ==> {
            let tm = #[trigger] terms[j];
            before.lock_map().contains_key(tm.key) ==> if tm.writes {
                !after.lock_map()[tm.key].is_writer() && after.lock_map()[tm.key].readers() == 0
            } else {
                after.lock_map()[tm.key].readers() == before.lock_map()[tm.key].readers() - 1
                    && !after.lock_map()[tm.key].is_writer()
            }
        }
}

/// Queries asking only shared access run concurrently: after one all-shared
/// shape's guards are taken, any all-shared shape — over identical, disjoint
/// or overlapping component types — is still available, short of the machine
/// limit on the hold count.
pub proof fn lemma_shared_shapes_concurrent(
    before: Stores,
    after: Stores,
    terms1: Seq<QueryTerm>,
    terms2: Seq<QueryTerm>,
)
    requires
        locks_acquired(before, after, terms1),
        forall|j: int| 0 <= j < terms1.len() ==> !(#[trigger] terms1[j]).writes,
        forall|j: int| 0 <= j < terms2.len() ==> !(#[trigger] terms2[j]).writes,
        shape_available(before, terms2),
        forall|t: u64|
            #[trigger] before.lock_map().contains_key(t) ==> before.lock_map()[t].readers() + 1
                < usize::MAX,
    ensures
        shape_available(after, terms2),
{
    assert forall|j: int| 0 <= j < terms2.len() implies {
        let tm = #[trigger] terms2[j];
        if tm.writes {
            after.can_write(tm.key)
        } else {
            after.can_read(tm.key)
        }
    } by {
        let k = terms2[j].key;
        if after.lock_map().contains_key(k) {
            assert(before.lock_map().contains_key(k));
            if terms_have_key(terms1, k) {
                let j1 = choose|j1: int| 0 <= j1 < terms1.len() && (#[trigger] terms1[j1]).key == k;
                assert(!terms1[j1].writes);
                assert(after.lock_map()[k].readers() == before.lock_map()[k].readers() + 1);
                assert(!after.lock_map()[k].is_writer());
            } else {
                assert(after.lock_map()[k] == before.lock_map()[k]);
            }
        }
    }
}

/// An exclusive hold excludes every other query on the type: while a shape
/// holds exclusive access to a component type, no shape asking for that type
/// in either mode is available, so no second query can observe the column
/// mid-write.
pub proof fn lemma_exclusive_shape_blocks(stores: Stores, terms: Seq<QueryTerm>, j: int)
    requires
        shape_held(stores, terms),
        0 <= j < terms.len(),
        terms[j].writes,
        stores.lock_map().contains_key(terms[j].key),
    ensures
        !stores.can_read(terms[j].key),
        !stores.can_write(terms[j].key),
{
    assert(stores.write_held(terms[j].key));
}

/// Optional-shape requirements never exclude a table: adding an optional term
/// to a shape leaves the set of qualifying tables unchanged.
pub proof fn lemma_optional_never_excludes(t: Table, terms: Seq<QueryTerm>, term: QueryTerm)
    requires
        term.optional,
    ensures
        matches_table(t, terms.push(term)) == matches_table(t, terms),
{
    let ext = terms.push(term);
    if matches_table(t, terms) {
        assert forall|j: int| 0 <= j < ext.len() implies ((#[trigger] ext[j]).optional || t.has_type(
            ext[j].key,
        )) by {
            if j < terms.len() {
                assert(ext[j] == terms[j]);
                assert(terms[j].optional || t.has_type(terms[j].key));
            } else {
                assert(ext[j] == term);
            }
        }
    }
    if matches_table(t, ext) {
        assert forall|j: int| 0 <= j < terms.len() implies ((#[trigger] terms[j]).optional
            || t.has_type(terms[j].key)) by {
            assert(ext[j] == terms[j]);
            assert(ext[j].optional || t.has_type(ext[j].key));
        }
    }
}

/// Required-shape requirements do filter: a qualifying table has a column for
/// every non-optional type of the shape.
pub proof fn lemma_required_filters(t: Table, terms: Seq<QueryTerm>, j: int)
    requires
        matches_table(t, terms),
        0 <= j < terms.len(),
        !terms[j].optional,
    ensures
        t.has_type(terms[j].key),
{
}

/// Within a qualifying table every row is visited: each row position is
/// itself the next position the query yields from there, so an iteration
/// walks exactly the table's row count.
pub proof fn lemma_table_rows_all_visited(
    tables: Seq<Table>,
    terms: Seq<QueryTerm>,
    ti: int,
    ri: int,
)
    requires
        0 <= ti < tables.len(),
        matches_table(tables[ti], terms),
        0 <= ri < tables[ti].row_ids().len(),
    ensures
        next_pos(tables, terms, ti, ri) == Some((ti, ri)),
{
}

/// The first position at or after `(ti, ri)` (table index, row index) holding
/// a row of a qualifying table, scanning tables in creation order and rows in
/// row-index order.
pub open spec fn next_pos(tables: Seq<Table>, terms: Seq<QueryTerm>, ti: int, ri: int) -> Option<
    (int, int),
>
    decreases tables.len() - ti,
{
    if ti < 0 || ti >= tables.len() {
        None
    } else if matches_table(tables[ti], terms) && 0 <= ri < tables[ti].row_ids().len() {
        Some((ti, ri))
    } else {
        next_pos(tables, terms, ti + 1, 0)
    }
}

/// `vals` is the shape's view of row `ri` of table `t`: per term, a copy of
/// the bytes in that row's slot of the type's column, or the missing marker
/// where the (necessarily optional) type has no column.
pub open spec fn row_output_ok(
    t: Table,
    stores: Stores,
    terms: Seq<QueryTerm>,
    ri: int,
    vals: Seq<Option<Vec<u8>>>,
) -> bool {
    &&& vals.len() == terms.len()
    &&& forall|j: int|
        0 <= j < terms.len() ==> {
            let tm = #[trigger] terms[j];
            if t.has_type(tm.key) {
                &&& vals[j] is Some
                &&& vals[j]->Some_0@ == stores.store_seq()[t.column_ids()[t.col_of(
                    tm.key,
                )].value() as int].slot(ri)
            } else {
                vals[j] is None
            }
        }
}

/// Copy a shape's requirement list.
fn copy_terms(src: &Vec<QueryTerm>) -> (r: Vec<QueryTerm>)
    ensures
        r@ == src@,
{
    let mut r: Vec<QueryTerm> = Vec::new();
    let n = src.len();
    for j in 0..n
        invariant
            n == src@.len(),
            r@ =~= src@.subrange(0, j as int),
    {
        r.push(src[j]);
    }
    proof {
        assert(r@ =~= src@);
    }
    r
}

/// Whether `t` qualifies for the shape.
fn matches_exec(t: &Table, terms: &Vec<QueryTerm>) -> (r: bool)
    requires
        t.wf(),
    ensures
        r == matches_table(*t, terms@),
{
    if t.is_empty() {
        return false;
    }
    let n = terms.len();
    for j in 0..n
        invariant
            t.wf(),
            n == terms@.len(),
            t.row_ids().len() > 0,
            forall|q: int| 0 <= q < j ==> ((#[trigger] terms@[q]).optional || t.has_type(terms@[q].key)),
    {
        let term = terms[j];
        if !term.optional {
            if t.column_by_key(term.key).is_none() {
                return false;
            }
        }
    }
    true
}

/// Holds a shape's access guards from query construction until release.
pub struct QueryLock {
    terms: Vec<QueryTerm>,
}

impl QueryLock {
    /// The shape whose guards are held.
    pub closed spec fn term_seq(self) -> Seq<QueryTerm> {
        self.terms@
    }

    /// No component type is requested twice.
    pub open spec fn wf(self) -> bool {
        forall|a: int, b: int|
            0 <= a < b < self.term_seq().len() ==> (#[trigger] self.term_seq()[a]).key
                != (#[trigger] self.term_seq()[b]).key
    }

    /// Take every guard of the shape, exclusively for written types and
    /// shared for read ones, in term order.
    pub fn new(stores: &mut Stores, shape: &Query) -> (r: QueryLock)
        requires
            old(stores).wf(),
            shape.wf(),
            shape_available(*old(stores), shape.term_seq()),
        ensures
            r.wf(),
            r.term_seq() == shape.term_seq(),
            locks_acquired(*old(stores), *final(stores), shape.term_seq()),
            shape_held(*final(stores), shape.term_seq()),
    {
        let terms = copy_terms(&shape.terms);
        let n = terms.len();
        let ghost st0 = *stores;
        for j in 0..n
            invariant
                n == terms@.len(),
                terms@ == shape.term_seq(),
                shape.wf(),
                stores.wf(),
                st0 == *old(stores),
                st0.wf(),
                shape_available(st0, shape.term_seq()),
                stores.store_seq() == st0.store_seq(),
                stores.lock_map().dom() == st0.lock_map().dom(),
                forall|t: u64|
                    st0.lock_map().contains_key(t) && !terms_have_key(terms@, t)
                        ==> #[trigger] stores.lock_map()[t] == st0.lock_map()[t],
                forall|q: int|
                    j <= q < n && st0.lock_map().contains_key((#[trigger] terms@[q]).key)
                        ==> stores.lock_map()[terms@[q].key] == st0.lock_map()[terms@[q].key],
                forall|q: int|
                    0 <= q < j ==> {
                        let tm = #[trigger] terms@[q];
                        st0.lock_map().contains_key(tm.key) ==> if tm.writes {
                            stores.lock_map()[tm.key].is_writer() && stores.lock_map()[tm.key].readers()
                                == 0
                        } else {
                            stores.lock_map()[tm.key].readers() == st0.lock_map()[tm.key].readers()
                                + 1 && !stores.lock_map()[tm.key].is_writer()
                        }
                    },
        {
            let term = terms[j];
            proof {
                assert(st0.lock_map().contains_key(term.key) == stores.lock_map().contains_key(
                    term.key,
                ));
            }
            if term.writes {
                stores.acquire_write(term.key);
            } else {
                stores.acquire_read(term.key);
            }
            proof {
                assert forall|q: int|
                    j + 1 <= q < n && st0.lock_map().contains_key(
                        (#[trigger] terms@[q]).key,
                    ) implies stores.lock_map()[terms@[q].key] == st0.lock_map()[terms@[q].key] by {
                    assert(terms@[q].key != term.key);
                }
                assert forall|t: u64|
                    st0.lock_map().contains_key(t) && !terms_have_key(terms@, t)
                        implies #[trigger] stores.lock_map()[t] == st0.lock_map()[t] by {
                    assert(terms@[j as int].key == term.key);
                    assert(t != term.key);
                }
            }
        }
        QueryLock { terms }
    }

    /// Give back every guard of the shape, exactly once.
    pub fn release(self, stores: &mut Stores)
        requires
            old(stores).wf(),
            self.wf(),
            shape_held(*old(stores), self.term_seq()),
        ensures
            locks_released(*old(stores), *final(stores), self.term_seq()),
    {
        let n = self.terms.len();
        let ghost st0 = *stores;
        let ghost terms = self.terms@;
        for j in 0..n
            invariant
                n == self.terms@.len(),
                terms == self.terms@,
                self.wf(),
                stores.wf(),
                st0 == *old(stores),
                st0.wf(),
                shape_held(st0, terms),
                stores.store_seq() == st0.store_seq(),
                stores.lock_map().dom() == st0.lock_map().dom(),
                forall|t: u64|
                    st0.lock_map().contains_key(t) && !terms_have_key(terms, t)
                        ==> #[trigger] stores.lock_map()[t] == st0.lock_map()[t],
                forall|q: int|
                    j <= q < n && st0.lock_map().contains_key((#[trigger] terms[q]).key)
                        ==> stores.lock_map()[terms[q].key] == st0.lock_map()[terms[q].key],
                forall|q: int|
                    0 <= q < j ==> {
                        let tm = #[trigger] terms[q];
                        st0.lock_map().contains_key(tm.key) ==> if tm.writes {
                            !stores.lock_map()[tm.key].is_writer() && stores.lock_map()[tm.key].readers()
                                == 0
                        } else {
                            stores.lock_map()[tm.key].readers() == st0.lock_map()[tm.key].readers()
                                - 1 && !stores.lock_map()[tm.key].is_writer()
                        }
                    },
        {
            let term = self.terms[j];
            proof {
                assert(st0.lock_map().contains_key(term.key) == stores.lock_map().contains_key(
                    term.key,
                ));
            }
            if term.writes {
                stores.release_write(term.key);
            } else {
                stores.release_read(term.key);
            }
            proof {
                assert forall|q: int|
                    j + 1 <= q < n && st0.lock_map().contains_key(
                        (#[trigger] terms[q]).key,
                    ) implies stores.lock_map()[terms[q].key] == st0.lock_map()[terms[q].key] by {
                    assert(self.term_seq()[j as int].key == term.key);
                    assert(self.term_seq()[q].key == terms[q].key);
                    assert(terms[q].key != term.key);
                }
                assert forall|t: u64|
                    st0.lock_map().contains_key(t) && !terms_have_key(terms, t)
                        implies #[trigger] stores.lock_map()[t] == st0.lock_map()[t] by {
                    assert(terms[j as int].key == term.key);
                    assert(t != term.key);
                }
            }
        }
    }
}

/// Scans a table directory for the tables qualifying for one shape, in
/// creation order.
pub struct TableFilter {
    terms: Vec<QueryTerm>,
    pos: usize,
}

impl TableFilter {
    /// The shape the filter matches against.
    pub closed spec fn term_seq(self) -> Seq<QueryTerm> {
        self.terms@
    }

    /// The next table position to look at.
    pub closed spec fn cursor(self) -> nat {
        self.pos as nat
    }

    /// A filter for `shape`, starting at the first table.
    pub fn new(shape: &Query) -> (r: TableFilter)
        ensures
            r.term_seq() == shape.term_seq(),
            r.cursor() == 0,
    {
        TableFilter { terms: copy_terms(&shape.terms), pos: 0 }
    }

    /// The first qualifying table at or after the cursor, if any, advancing
    /// the cursor past it.
    pub fn next(&mut self, tables: &Tables) -> (r: Option<TableId>)
        requires
            tables.wf(),
        ensures
            final(self).term_seq() == old(self).term_seq(),
            match next_table(tables.table_seq(), old(self).term_seq(), old(self).cursor() as int) {
                None => r is None,
                Some(ti) => {
                    &&& r matches Some(tid) && tid.value() == ti
                    &&& matches_table(tables.table_seq()[ti], old(self).term_seq())
                    &&& final(self).cursor() == ti + 1
                },
            },
    {
        let n = tables.len();
        while self.pos < n
            invariant
                tables.wf(),
                n == tables.table_seq().len(),
                self.terms@ == old(self).terms@,
                next_table(tables.table_seq(), self.terms@, old(self).cursor() as int) == next_table(
                    tables.table_seq(),
                    self.terms@,
                    self.pos as int,
                ),
            decreases n - self.pos,
        {
            let tid = tables.table_id_at(self.pos);
            let t = tables.get(tid);
            if matches_exec(t, &self.terms) {
                self.pos = self.pos + 1;
                return Some(tid);
            }
            self.pos = self.pos + 1;
        }
        None
    }
}

/// The first qualifying table at or after position `ti`, in creation order.
pub open spec fn next_table(tables: Seq<Table>, terms: Seq<QueryTerm>, ti: int) -> Option<int>
    decreases tables.len() - ti,
{
    if ti < 0 || ti >= tables.len() {
        None
    } else if matches_table(tables[ti], terms) {
        Some(ti)
    } else {
        next_table(tables, terms, ti + 1)
    }
}

/// The shape's view of row `ri` of table `t`: per term, a copy of the bytes
/// in that row's slot of the type's column, or the missing marker where the
/// type has no column there.
fn collect_row(
    t: &Table,
    stores: &Stores,
    terms: &Vec<QueryTerm>,
    ri: usize,
    Ghost(ti): Ghost<int>,
    tables: &Tables,
) -> (vals: Vec<Option<Vec<u8>>>)
    requires
        tables.wf(),
        stores.wf(),
        tables_linked(*tables, *stores),
        0 <= ti < tables.table_seq().len(),
        *t == tables.table_seq()[ti],
        (ri as int) < t.row_ids().len(),
    ensures
        row_output_ok(*t, *stores, terms@, ri as int, vals@),
{
    let mut vals: Vec<Option<Vec<u8>>> = Vec::new();
    let m = terms.len();
    for j in 0..m
        invariant
            tables.wf(),
            stores.wf(),
            tables_linked(*tables, *stores),
            0 <= ti < tables.table_seq().len(),
            *t == tables.table_seq()[ti],
            (ri as int) < t.row_ids().len(),
            m == terms@.len(),
            vals@.len() == j,
            forall|q: int|
                0 <= q < j ==> {
                    let tm = #[trigger] terms@[q];
                    if t.has_type(tm.key) {
                        &&& vals@[q] is Some
                        &&& vals@[q]->Some_0@ == stores.store_seq()[t.column_ids()[t.col_of(
                            tm.key,
                        )].value() as int].slot(ri as int)
                    } else {
                        vals@[q] is None
                    }
                },
    {
        let term = terms[j];
        match t.column_by_key(term.key) {
            Some(sid) => {
                proof {
                    t.lemma_col_of(term.key);
                    assert(tables.table_seq()[ti].column_ids()[t.col_of(term.key)] == sid);
                    assert(sid.value() < stores.store_seq().len());
                }
                let st = stores.get(sid);
                let bytes = st.get(ri).unwrap();
                vals.push(Some(bytes));
            },
            None => {
                vals.push(None);
            },
        }
        proof {
            assert forall|q: int| 0 <= q < j + 1 implies {
                let tm = #[trigger] terms@[q];
                if t.has_type(tm.key) {
                    &&& vals@[q] is Some
                    &&& vals@[q]->Some_0@ == stores.store_seq()[t.column_ids()[t.col_of(
                        tm.key,
                    )].value() as int].slot(ri as int)
                } else {
                    vals@[q] is None
                }
            } by {
                if q < j {
                    assert(vals@[q] == vals@.subrange(0, j as int)[q]);
                }
            }
        }
    }
    vals
}

/// A query over every qualifying table, yielding each row of each such table
/// in creation-then-row order. Guards are held from construction to release.
pub struct FullQuery {
    lock: QueryLock,
    table_idx: usize,
    row_idx: usize,
}

impl FullQuery {
    /// The shape being fetched.
    pub closed spec fn term_seq(self) -> Seq<QueryTerm> {
        self.lock.term_seq()
    }

    /// The table the cursor stands at.
    pub closed spec fn table_cursor(self) -> nat {
        self.table_idx as nat
    }

    /// The row the cursor stands at within its table.
    pub closed spec fn row_cursor(self) -> nat {
        self.row_idx as nat
    }

    /// No component type is requested twice.
    pub open spec fn wf(self) -> bool {
        forall|a: int, b: int|
            0 <= a < b < self.term_seq().len() ==> (#[trigger] self.term_seq()[a]).key
                != (#[trigger] self.term_seq()[b]).key
    }

    /// Construct a query for `shape`: take its guards and stand at the first
    /// position.
    pub fn new(stores: &mut Stores, shape: &Query) -> (r: FullQuery)
        requires
            old(stores).wf(),
            shape.wf(),
            shape_available(*old(stores), shape.term_seq()),
        ensures
            r.wf(),
            r.term_seq() == shape.term_seq(),
            r.table_cursor() == 0,
            r.row_cursor() == 0,
            locks_acquired(*old(stores), *final(stores), shape.term_seq()),
            shape_held(*final(stores), shape.term_seq()),
    {
        FullQuery { lock: QueryLock::new(stores, shape), table_idx: 0, row_idx: 0 }
    }

    /// Yield the entity and component bytes of the first qualifying position
    /// at or after the cursor, advancing past it; or nothing when no
    /// qualifying position remains.
    pub fn next(&mut self, tables: &Tables, stores: &Stores) -> (r: Option<
        (EntityId, Vec<Option<Vec<u8>>>),
    >)
        requires
            tables.wf(),
            stores.wf(),
            tables_linked(*tables, *stores),
        ensures
            final(self).term_seq() == old(self).term_seq(),
            match next_pos(
                tables.table_seq(),
                old(self).term_seq(),
                old(self).table_cursor() as int,
                old(self).row_cursor() as int,
            ) {
                None => r is None && final(self).table_cursor() >= tables.table_seq().len(),
                Some(pos) => {
                    &&& r matches Some(out) && out.0 == tables.table_seq()[pos.0].row_ids()[pos.1]
                    &&& r matches Some(out) && row_output_ok(
                        tables.table_seq()[pos.0],
                        *stores,
                        old(self).term_seq(),
                        pos.1,
                        out.1@,
                    )
                    &&& matches_table(tables.table_seq()[pos.0], old(self).term_seq())
                    &&& final(self).table_cursor() == pos.0
                    &&& final(self).row_cursor() == pos.1 + 1
                },
            },
    {
        let n = tables.len();
        while self.table_idx < n
            invariant
                tables.wf(),
                stores.wf(),
                tables_linked(*tables, *stores),
                n == tables.table_seq().len(),
                self.lock == old(self).lock,
                next_pos(
                    tables.table_seq(),
                    self.term_seq(),
                    old(self).table_cursor() as int,
                    old(self).row_cursor() as int,
                ) == next_pos(
                    tables.table_seq(),
                    self.term_seq(),
                    self.table_idx as int,
                    self.row_idx as int,
                ),
            decreases n - self.table_idx,
        {
            let tid = tables.table_id_at(self.table_idx);
            let t = tables.get(tid);
            if self.row_idx < t.len() && matches_exec(t, &self.lock.terms) {
                proof {
                    assert(next_pos(
                        tables.table_seq(),
                        self.term_seq(),
                        self.table_idx as int,
                        self.row_idx as int,
                    ) == Some((self.table_idx as int, self.row_idx as int)));
                }
                let eid = t.get(self.row_idx).unwrap();
                let vals = collect_row(
                    t,
                    stores,
                    &self.lock.terms,
                    self.row_idx,
                    Ghost(self.table_idx as int),
                    tables,
                );
                self.row_idx = self.row_idx + 1;
                return Some((eid, vals));
            }
            proof {
                assert(next_pos(
                    tables.table_seq(),
                    self.term_seq(),
                    self.table_idx as int,
                    self.row_idx as int,
                ) == next_pos(
                    tables.table_seq(),
                    self.term_seq(),
                    self.table_idx as int + 1,
                    0,
                ));
            }
            self.table_idx = self.table_idx + 1;
            self.row_idx = 0;
        }
        None
    }

    /// Give back the shape's guards, exactly once, however the iteration
    /// ended.
    pub fn release(self, stores: &mut Stores)
        requires
            old(stores).wf(),
            self.wf(),
            shape_held(*old(stores), self.term_seq()),
        ensures
            locks_released(*old(stores), *final(stores), self.term_seq()),
    {
        let FullQuery { lock, table_idx: _, row_idx: _ } = self;
        lock.release(stores);
    }
}

/// The identity-scoped query: the same filtering as `FullQuery`, applied only
/// to the table owning one entity, yielding at most one result.
pub struct EntityQuery {
    lock: QueryLock,
    target: Option<(TableId, usize)>,
}

impl EntityQuery {
    /// The shape being fetched.
    pub closed spec fn term_seq(self) -> Seq<QueryTerm> {
        self.lock.term_seq()
    }

    /// Where the entity's row stands, if the entity is live and its table
    /// qualifies.
    pub closed spec fn target_spec(self) -> Option<(int, int)> {
        match self.target {
            Some((tid, ri)) => Some((tid.value() as int, ri as int)),
            None => None,
        }
    }

    /// No component type is requested twice.
    pub open spec fn wf(self) -> bool {
        forall|a: int, b: int|
            0 <= a < b < self.term_seq().len() ==> (#[trigger] self.term_seq()[a]).key
                != (#[trigger] self.term_seq()[b]).key
    }

    /// The target, if any, names a row of an existing table.
    pub open spec fn target_ok(self, tables: Tables) -> bool {
        self.target_spec() matches Some(pos) ==> 0 <= pos.0 < tables.table_seq().len() && 0 <= pos.1
            < tables.table_seq()[pos.0].row_ids().len()
    }

    /// Construct a query for `shape` against the single table holding
    /// `entity_id`, taking the shape's guards.
    pub fn new(
        stores: &mut Stores,
        tables: &Tables,
        entities: &Entities,
        entity_id: EntityId,
        shape: &Query,
    ) -> (r: EntityQuery)
        requires
            old(stores).wf(),
            tables.wf(),
            entities.wf(),
            shape.wf(),
            entities_linked(*entities, *tables),
            shape_available(*old(stores), shape.term_seq()),
        ensures
            r.wf(),
            r.term_seq() == shape.term_seq(),
            r.target_ok(*tables),
            locks_acquired(*old(stores), *final(stores), shape.term_seq()),
            shape_held(*final(stores), shape.term_seq()),
            ({
                let live = entities.table_map().contains_key(entity_id);
                if live && matches_table(
                    tables.table_seq()[entities.table_map()[entity_id].value() as int],
                    shape.term_seq(),
                ) {
                    {
                        &&& r.target_spec() matches Some(pos)
                        &&& r.target_spec()->Some_0.0 == entities.table_map()[entity_id].value()
                        &&& tables.table_seq()[r.target_spec()->Some_0.0].row_ids()[r.target_spec()->Some_0.1]
                            == entity_id
                    }
                } else {
                    r.target_spec() is None
                }
            }),
    {
        let lock = QueryLock::new(stores, shape);
        let target: Option<(TableId, usize)> = match entities.table_id(entity_id) {
            Some(tid) => {
                let t = tables.get(tid);
                if matches_exec(t, &lock.terms) {
                    let row = t.entity_index(entity_id).unwrap();
                    Some((tid, row))
                } else {
                    None
                }
            },
            None => None,
        };
        EntityQuery { lock, target }
    }

    /// Yield the component bytes of the target row, once; later calls, and
    /// queries whose entity is absent or whose table does not qualify, yield
    /// nothing.
    pub fn next(&mut self, tables: &Tables, stores: &Stores) -> (r: Option<Vec<Option<Vec<u8>>>>)
        requires
            tables.wf(),
            stores.wf(),
            tables_linked(*tables, *stores),
            old(self).target_ok(*tables),
        ensures
            final(self).term_seq() == old(self).term_seq(),
            final(self).target_spec() is None,
            match old(self).target_spec() {
                None => r is None,
                Some(pos) => r matches Some(vals) && row_output_ok(
                    tables.table_seq()[pos.0],
                    *stores,
                    old(self).term_seq(),
                    pos.1,
                    vals@,
                ),
            },
    {
        let tg = self.target;
        self.target = None;
        match tg {
            None => None,
            Some((tid, ri)) => {
                let t = tables.get(tid);
                let vals = collect_row(
                    t,
                    stores,
                    &self.lock.terms,
                    ri,
                    Ghost(tid.value() as int),
                    tables,
                );
                Some(vals)
            },
        }
    }

    /// Give back the shape's guards, exactly once.
    pub fn release(self, stores: &mut Stores)
        requires
            old(stores).wf(),
            self.wf(),
            shape_held(*old(stores), self.term_seq()),
        ensures
            locks_released(*old(stores), *final(stores), self.term_seq()),
    {
        let EntityQuery { lock, target: _ } = self;
        lock.release(stores);
    }
}

} // verus!
