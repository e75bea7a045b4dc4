//! The relational data the pipeline runs over: a plaintext table as the
//! client sees it, its encrypted counterpart as the server holds it, and the
//! store of encrypted tables the evaluator scans.
//!
//! The server-side `Table` holds one ciphertext word per cell. As ghost
//! state it carries the plaintext rows it was encrypted from, so every
//! contract downstream can speak of the values the server never sees.

use vstd::prelude::*;

verus! {

use crate::error::Error;
use crate::fhe::ClientKeyHandle;
use crate::fhe::CtWord;
use crate::fhe::encrypt_word;
use crate::program::row_matches;
use crate::query::SchemaV;
use crate::values::ColumnType;
use crate::values::PlainValue;
use crate::values::code_of;
use crate::values::lemma_code_in_range;
use crate::values::encode_value_exec;
use crate::values::value_fits;
use crate::values::value_fits_exec;

/// One declared column: its name and type.
pub struct Column {
    pub name: String,
    pub ty: ColumnType,
}

impl View for Column {
    type V = (Seq<char>, ColumnType);

    open spec fn view(&self) -> (Seq<char>, ColumnType) {
        (self.name@, self.ty)
    }
}

/// The schema of a column list.
pub open spec fn schema_of(cols: Seq<Column>) -> SchemaV {
    cols.map(|i: int, c: Column| c@)
}

/// A plaintext table: named, typed columns and rows of plain values. This is
/// what the client holds and what the pipeline's answers are compared
/// against.
pub struct PlainTable {
    pub name: String,
    pub cols: Vec<Column>,
    pub rows: Vec<Vec<PlainValue>>,
}

impl PlainTable {
    /// The table's schema.
    pub open spec fn schema(self) -> SchemaV {
        schema_of(self.cols@)
    }

    /// The table's rows, as value sequences.
    pub open spec fn vals(self) -> Seq<Seq<PlainValue>> {
        self.rows@.map(|i: int, r: Vec<PlainValue>| r@)
    }

    /// Every row has one value per declared column, of the declared type.
    pub open spec fn wf(self) -> bool {
        forall|i: int|
            0 <= i < self.vals().len() ==> (#[trigger] self.vals()[i]).len() == self.schema().len()
                && forall|j: int|
                0 <= j < self.schema().len() ==> value_fits(
                    #[trigger] self.vals()[i][j],
                    self.schema()[j].1,
                )
    }

    /// An empty table with the given name and columns.
    pub fn new(name: String, cols: Vec<Column>) -> (t: PlainTable)
        ensures
            t.name@ == name@,
            t.schema() == schema_of(cols@),
            t.vals() == Seq::<Seq<PlainValue>>::empty(),
            t.wf(),
    {
        let t = PlainTable { name, cols, rows: Vec::new() };
        proof {
            assert(t.vals() =~= Seq::<Seq<PlainValue>>::empty());
        }
        t
    }

    /// Appends one row, after checking it against the schema: one value per
    /// column, each of the declared type. A row that does not fit is refused
    /// with `SchemaMismatch` and the table stands unchanged.
    pub fn insert_row(&mut self, row: Vec<PlainValue>) -> (r: Result<(), Error>)
        ensures
            r is Ok <==> (row@.len() == old(self).schema().len() && forall|j: int|
                0 <= j < old(self).schema().len() ==> value_fits(
                    #[trigger] row@[j],
                    old(self).schema()[j].1,
                )),
            r matches Err(e) ==> e == Error::SchemaMismatch && *final(self) == *old(self),
            r is Ok ==> final(self).vals() == old(self).vals().push(row@) && final(self).schema()
                == old(self).schema() && final(self).name@ == old(self).name@,
            r is Ok && old(self).wf() ==> final(self).wf(),
    {
        if row.len() != self.cols.len() {
            return Err(Error::SchemaMismatch);
        }
        let mut j: usize = 0;
        while j < self.cols.len()
            invariant
                j <= self.cols@.len(),
                row@.len() == self.cols@.len(),
                forall|i: int|
                    0 <= i < j ==> value_fits(#[trigger] row@[i], schema_of(self.cols@)[i].1),
            decreases self.cols@.len() - j,
        {
            if !value_fits_exec(&row[j], &self.cols[j].ty) {
                return Err(Error::SchemaMismatch);
            }
            j = j + 1;
        }
        self.rows.push(row);
        proof {
            assert(final(self).vals() =~= old(self).vals().push(row@));
            if old(self).wf() {
                assert forall|i: int| 0 <= i < final(self).vals().len() implies (
                #[trigger] final(self).vals()[i]).len() == final(self).schema().len() && forall|
                    jj: int,
                |
                    0 <= jj < final(self).schema().len() ==> value_fits(
                        #[trigger] final(self).vals()[i][jj],
                        final(self).schema()[jj].1,
                    ) by {
                    if i < old(self).vals().len() {
                        assert(old(self).vals()[i] == final(self).vals()[i]);
                    }
                }
            }
        }
        Ok(())
    }
}

/// An encrypted table: the same schema, every cell one ciphertext word. The
/// plaintext rows it was made from are carried as ghost state only.
pub struct Table {
    pub(crate) name: String,
    pub(crate) cols: Vec<Column>,
    pub(crate) rows: Vec<Vec<CtWord>>,
    pub(crate) plain_g: Ghost<Seq<Seq<PlainValue>>>,
    pub(crate) tag_g: Ghost<int>,
}

/// The word codes of one encrypted row.
pub open spec fn row_codes(r: Seq<CtWord>) -> Seq<u64> {
    r.map(|j: int, c: CtWord| c.word())
}

impl Table {
    /// The table's name.
    pub closed spec fn name_spec(self) -> Seq<char> {
        self.name@
    }

    /// The table's schema.
    pub closed spec fn schema(self) -> SchemaV {
        schema_of(self.cols@)
    }

    /// The word codes held in each row, in row order.
    pub closed spec fn codes(self) -> Seq<Seq<u64>> {
        self.rows@.map(|i: int, r: Vec<CtWord>| row_codes(r@))
    }

    /// The plaintext rows the table was encrypted from.
    pub closed spec fn plain(self) -> Seq<Seq<PlainValue>> {
        self.plain_g@
    }

    /// The session tag of the key the table was encrypted under.
    pub closed spec fn tag(self) -> int {
        self.tag_g@
    }

    /// How many rows the table holds.
    pub closed spec fn nrows(self) -> nat {
        self.rows@.len()
    }

    /// A sound encrypted table: every row encodes its plaintext row cell by
    /// cell, under one session tag, with each ciphertext sized to its
    /// column's width.
    pub closed spec fn wf(self) -> bool {
        &&& self.rows@.len() == self.plain_g@.len()
        &&& forall|i: int|
            0 <= i < self.rows@.len() ==> (#[trigger] self.rows@[i])@.len() == self.cols@.len()
                && row_matches(self.schema(), row_codes(self.rows@[i]@), self.plain_g@[i])
                && forall|j: int|
                0 <= j < self.cols@.len() ==> (#[trigger] self.rows@[i]@[j]).tag() == self.tag_g@
                    && 2 * self.rows@[i]@[j].nblocks() == self.schema()[j].1.width()
                    && self.rows@[i]@[j].wf()
    }
}

/// What the table accessors mean, for the module that scans the rows.
pub(crate) proof fn lemma_table_open(t: &Table)
    ensures
        t.name_spec() == t.name@,
        t.schema() == schema_of(t.cols@),
        t.codes() == t.rows@.map(|i: int, r: Vec<CtWord>| row_codes(r@)),
        t.plain() == t.plain_g@,
        t.tag() == t.tag_g@,
        t.nrows() == t.rows@.len(),
        t.wf() <==> (t.rows@.len() == t.plain_g@.len() && forall|i: int|
            0 <= i < t.rows@.len() ==> (#[trigger] t.rows@[i])@.len() == t.cols@.len()
                && row_matches(t.schema(), row_codes(t.rows@[i]@), t.plain_g@[i]) && forall|j: int|
                0 <= j < t.cols@.len() ==> (#[trigger] t.rows@[i]@[j]).tag() == t.tag_g@ && 2
                    * t.rows@[i]@[j].nblocks() == t.schema()[j].1.width() && t.rows@[i]@[j].wf()),
{
}

/// Encrypts a plaintext table cell by cell under the client key. Fails with
/// `SchemaMismatch` exactly when some row does not fit the declared schema;
/// the encrypted table then carries the plaintext rows as its ghost view.
pub fn encrypt_table(t: &PlainTable, key: &ClientKeyHandle) -> (r: Result<Table, Error>)
    ensures
        r is Ok <==> t.wf(),
        r matches Err(e) ==> e == Error::SchemaMismatch,
        r matches Ok(enc) ==> enc.wf() && enc.name_spec() == t.name@ && enc.schema() == t.schema()
            && enc.plain() == t.vals() && enc.codes().len() == t.vals().len() && enc.tag()
            == key.tag() && enc.nrows() == t.vals().len(),
{
    let mut rows: Vec<Vec<CtWord>> = Vec::new();
    let mut i: usize = 0;
    while i < t.rows.len()
        invariant
            i <= t.rows@.len(),
            rows@.len() == i,
            forall|a: int|
                0 <= a < i ==> (#[trigger] t.vals()[a]).len() == t.schema().len() && forall|b: int|
                    0 <= b < t.schema().len() ==> value_fits(
                        #[trigger] t.vals()[a][b],
                        t.schema()[b].1,
                    ),
            forall|a: int|
                0 <= a < i ==> (#[trigger] rows@[a])@.len() == t.cols@.len() && row_matches(
                    t.schema(),
                    row_codes(rows@[a]@),
                    t.vals()[a],
                ) && forall|b: int|
                    0 <= b < t.cols@.len() ==> (#[trigger] rows@[a]@[b]).tag() == key.tag() && 2
                        * rows@[a]@[b].nblocks() == t.schema()[b].1.width() && rows@[a]@[b].wf(),
        decreases t.rows@.len() - i,
    {
        let src = &t.rows[i];
        if src.len() != t.cols.len() {
            proof {
                assert(t.vals()[i as int] == src@);
                assert(!t.wf());
            }
            return Err(Error::SchemaMismatch);
        }
        let mut row: Vec<CtWord> = Vec::new();
        let mut j: usize = 0;
        while j < t.cols.len()
            invariant
                j <= t.cols@.len(),
                0 <= i < t.rows@.len(),
                src == &t.rows@[i as int],
                src@.len() == t.cols@.len(),
                row@.len() == j,
                forall|b: int|
                    0 <= b < j ==> value_fits(#[trigger] src@[b], t.schema()[b].1),
                forall|b: int|
                    0 <= b < j ==> (#[trigger] row@[b]).word() as nat == code_of(
                        src@[b],
                        t.schema()[b].1,
                    ) && row@[b].tag() == key.tag() && 2 * row@[b].nblocks()
                        == t.schema()[b].1.width() && row@[b].wf(),
            decreases t.cols@.len() - j,
        {
            let v = &src[j];
            let ty = &t.cols[j].ty;
            if !value_fits_exec(v, ty) {
                proof {
                    assert(t.vals()[i as int] == src@);
                    assert(t.schema()[j as int].1 == *ty);
                    assert(!value_fits(t.vals()[i as int][j as int], t.schema()[j as int].1));
                    assert(!t.wf());
                }
                return Err(Error::SchemaMismatch);
            }
            proof {
                lemma_code_in_range(*v, *ty);
            }
            let code = encode_value_exec(v, ty);
            let bits = ty.width_exec();
            let blocks = (bits / 2) as usize;
            proof {
                assert(2 * blocks as nat == ty.width());
            }
            let ct = encrypt_word(key, code, blocks);
            row.push(ct);
            j = j + 1;
        }
        proof {
            assert(row_codes(row@).len() == t.cols@.len());
            assert(t.vals()[i as int] == src@);
            assert(row_matches(t.schema(), row_codes(row@), t.vals()[i as int])) by {
                assert forall|b: int| 0 <= b < t.schema().len() implies value_fits(
                    #[trigger] t.vals()[i as int][b],
                    t.schema()[b].1,
                ) && row_codes(row@)[b] as nat == code_of(
                    t.vals()[i as int][b],
                    t.schema()[b].1,
                ) by {
                    assert(row_codes(row@)[b] == row@[b].word());
                }
            }
        }
        rows.push(row);
        i = i + 1;
    }
    let enc = Table {
        name: t.name.clone(),
        cols: clone_cols(&t.cols),
        rows,
        plain_g: Ghost(t.vals()),
        tag_g: Ghost(key.tag()),
    };
    proof {
        assert(schema_of(enc.cols@) =~= t.schema());
        assert(enc.codes().len() == t.vals().len());
    }
    Ok(enc)
}

/// Copies a column list.
fn clone_cols(cols: &Vec<Column>) -> (r: Vec<Column>)
    ensures
        r@.len() == cols@.len(),
        forall|i: int| 0 <= i < cols@.len() ==> (#[trigger] r@[i])@ == cols@[i]@,
{
    let mut out: Vec<Column> = Vec::new();
    let mut i: usize = 0;
    while i < cols.len()
        invariant
            i <= cols@.len(),
            out@.len() == i,
            forall|j: int| 0 <= j < i ==> (#[trigger] out@[j])@ == cols@[j]@,
        decreases cols@.len() - i,
    {
        let c = Column { name: cols[i].name.clone(), ty: cols[i].ty };
        out.push(c);
        i = i + 1;
    }
    out
}

/// The relational store: the encrypted tables one query session runs over,
/// each under a unique name.
pub struct Store {
    pub(crate) tables: Vec<Table>,
}

impl Store {
    /// The stored tables, in insertion order.
    pub closed spec fn tables_spec(self) -> Seq<Table> {
        self.tables@
    }

    /// The index of the named table, or `-1`.
    pub open spec fn find_spec(self, name: Seq<char>) -> int {
        find_table(self.tables_spec(), name)
    }

    /// Every table is sound and no two share a name.
    pub open spec fn wf(self) -> bool {
        &&& forall|i: int|
            0 <= i < self.tables_spec().len() ==> (#[trigger] self.tables_spec()[i]).wf()
        &&& forall|i: int, j: int|
            0 <= i < j < self.tables_spec().len() ==> (#[trigger] self.tables_spec()[i]).name_spec()
                != (#[trigger] self.tables_spec()[j]).name_spec()
    }

    /// Every table was encrypted under the session with this tag.
    pub open spec fn all_tagged(self, tag: int) -> bool {
        forall|i: int| 0 <= i < self.tables_spec().len() ==> (#[trigger] self.tables_spec()[i]).tag() == tag
    }

    /// An empty store.
    pub fn new() -> (s: Store)
        ensures
            s.tables_spec() == Seq::<Table>::empty(),
            s.wf(),
    {
        Store { tables: Vec::new() }
    }

    /// Adds a table under its name. Refuses a name already in use, leaving
    /// the store unchanged.
    pub fn add(&mut self, t: Table) -> (r: bool)
        ensures
            r <==> old(self).find_spec(t.name_spec()) < 0,
            r ==> final(self).tables_spec() == old(self).tables_spec().push(t),
            !r ==> *final(self) == *old(self),
            old(self).wf() && t.wf() && r ==> final(self).wf(),
    {
        let found = find_table_exec(&self.tables, &t.name);
        proof {
            lemma_find_table(self.tables@, t.name@);
        }
        match found {
            Some(_) => false,
            None => {
                let ghost oldts = self.tables@;
                let ghost newname = t.name@;
                proof {
                    lemma_find_table(oldts, newname);
                }
                self.tables.push(t);
                proof {
                    let ts = final(self).tables_spec();
                    assert(ts =~= oldts.push(t));
                    if old(self).wf() && t.wf() {
                        assert(old(self).tables_spec() == oldts);
                        assert forall|i: int| 0 <= i < ts.len() implies (#[trigger] ts[i]).wf() by {
                            if i < oldts.len() {
                                assert(old(self).tables_spec()[i].wf());
                                assert(ts[i] == old(self).tables_spec()[i]);
                            } else {
                                assert(ts[i] == t);
                            }
                        }
                        assert forall|i: int, j: int|
                            0 <= i < j < ts.len() implies (#[trigger] ts[i]).name_spec() != (
                        #[trigger] ts[j]).name_spec() by {
                            if j < ts.len() - 1 {
                                assert(ts[i] == old(self).tables_spec()[i]);
                                assert(ts[j] == old(self).tables_spec()[j]);
                                assert(old(self).tables_spec()[i].name_spec() != old(
                                    self,
                                ).tables_spec()[j].name_spec());
                            } else {
                                assert(ts[j] == t);
                                assert(ts[i] == oldts[i]);
                                assert(oldts[i].name_spec() != newname);
                            }
                        }
                    }
                }
                true
            },
        }
    }

    /// Looks a table up by name.
    pub fn find(&self, name: &String) -> (r: Option<&Table>)
        ensures
            r is Some <==> self.find_spec(name@) >= 0,
            r matches Some(t) ==> *t == self.tables_spec()[self.find_spec(name@)],
    {
        let r = find_table_exec(&self.tables, name);
        proof {
            lemma_find_table(self.tables@, name@);
        }
        r
    }
}

/// The index of the first table with the given name, or `-1`.
pub open spec fn find_table(ts: Seq<Table>, name: Seq<char>) -> int
    decreases ts.len(),
{
    if ts.len() == 0 {
        -1
    } else if ts[0].name_spec() == name {
        0
    } else {
        let r = find_table(ts.drop_first(), name);
        if r < 0 {
            -1
        } else {
            r + 1
        }
    }
}

/// `find_table` returns a sound index: the first hit, or `-1` when no table
/// bears the name.
pub proof fn lemma_find_table(ts: Seq<Table>, name: Seq<char>)
    ensures
        find_table(ts, name) >= 0 ==> find_table(ts, name) < ts.len() && ts[find_table(
            ts,
            name,
        )].name_spec() == name,
        find_table(ts, name) < 0 ==> forall|i: int|
            0 <= i < ts.len() ==> (#[trigger] ts[i]).name_spec() != name,
        forall|i: int|
            (0 <= i < ts.len() && ts[i].name_spec() == name && (forall|j: int|
                0 <= j < i ==> (#[trigger] ts[j]).name_spec() != name)) ==> find_table(ts, name)
                == i,
    decreases ts.len(),
{
    if ts.len() > 0 && ts[0].name_spec() != name {
        lemma_find_table(ts.drop_first(), name);
        assert forall|i: int|
            find_table(ts, name) < 0 && 0 <= i < ts.len() implies (#[trigger] ts[i]).name_spec()
            != name by {
            if i > 0 {
                assert(ts.drop_first()[i - 1] == ts[i]);
            }
        }
        assert forall|i: int|
            (0 <= i < ts.len() && ts[i].name_spec() == name && (forall|j: int|
                0 <= j < i ==> (#[trigger] ts[j]).name_spec() != name)) implies find_table(ts, name)
            == i by {
            assert(i > 0);
            assert(ts.drop_first()[i - 1] == ts[i]);
            assert forall|j: int| 0 <= j < i - 1 implies (#[trigger] ts.drop_first()[j]).name_spec()
                != name by {
                assert(ts.drop_first()[j] == ts[j + 1]);
            }
        }
    }
}

/// Scans for a table by name.
fn find_table_exec<'a>(ts: &'a Vec<Table>, name: &String) -> (r: Option<&'a Table>)
    ensures
        r is Some <==> find_table(ts@, name@) >= 0,
        r matches Some(t) ==> *t == ts@[find_table(ts@, name@)],
{
    let mut i: usize = 0;
    while i < ts.len()
        invariant
            i <= ts@.len(),
            forall|j: int| 0 <= j < i ==> (#[trigger] ts@[j]).name_spec() != name@,
        decreases ts@.len() - i,
    {
        if ts[i].name == *name {
            proof {
                lemma_find_table(ts@, name@);
            }
            return Some(&ts[i]);
        }
        i = i + 1;
    }
    proof {
        lemma_find_table(ts@, name@);
        if find_table(ts@, name@) >= 0 {
            assert(ts@[find_table(ts@, name@)].name_spec() == name@);
        }
    }
    None
}

} // verus!
