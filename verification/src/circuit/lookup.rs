//! Lookup tables and the lookups into them.

use crate::tensor::{view_all, VarTensor, VarTensorView};
use vstd::prelude::*;

verus! {

/// An elementwise operation that is constrained through a lookup table.
#[derive(Clone, Copy, Debug, PartialEq, Eq, Structural)]
pub enum LookupOp {
    /// Division by a constant.
    Div { scale: usize },
    /// Rectifier, with the divisor that rescales its result.
    ReLU { scale: usize },
    /// Leaky rectifier, with the divisor that rescales its result and its quantized slope.
    LeakyReLU { scale: usize, slope: u32 },
    /// Logistic function, with the fixed-point denominators of its operand and its result.
    Sigmoid { scale_in: usize, scale_out: usize },
}

/// A physical table: the operations it implements, in order, and the width of its entries.
#[derive(Clone, Debug, PartialEq, Eq)]
pub struct LookupTable {
    /// The key of the table.
    pub ops: Vec<LookupOp>,
    pub bits: usize,
}

/// What a [`LookupTable`] stands for.
pub struct LookupTableView {
    pub ops: Seq<LookupOp>,
    pub bits: usize,
}

impl View for LookupTable {
    type V = LookupTableView;

    open spec fn view(&self) -> LookupTableView {
        LookupTableView { ops: self.ops@, bits: self.bits }
    }
}

/// A lookup of one column into a table, by the table's handle.
#[derive(Clone, Debug, PartialEq, Eq)]
pub struct LookupConfig {
    /// The handle of the table in the registry.
    pub table: usize,
    pub input: VarTensor,
    pub output: VarTensor,
}

/// What a [`LookupConfig`] stands for.
pub struct LookupConfigView {
    pub table: int,
    pub input: VarTensorView,
    pub output: VarTensorView,
}

impl View for LookupConfig {
    type V = LookupConfigView;

    open spec fn view(&self) -> LookupConfigView {
        LookupConfigView { table: self.table as int, input: self.input@, output: self.output@ }
    }
}

/// The tables of a circuit. A table is made when its key is asked for first, and shared by
/// all who ask for that key afterwards; its handle is its place in the list.
#[derive(Clone, Debug, PartialEq, Eq)]
pub struct LookupTables {
    pub tables: Vec<LookupTable>,
}

impl View for LookupTables {
    type V = Seq<LookupTableView>;

    open spec fn view(&self) -> Seq<LookupTableView> {
        view_all(self.tables@)
    }
}

/// Whether no two tables have the same key.
pub open spec fn distinct_keys(tables: Seq<LookupTableView>) -> bool {
    forall|i: int, j: int|
        0 <= i < j < tables.len() ==> (#[trigger] tables[i]).ops != (#[trigger] tables[j]).ops
}

/// Whether a table of key `key` exists.
pub open spec fn has_table(tables: Seq<LookupTableView>, key: Seq<LookupOp>) -> bool {
    exists|i: int| 0 <= i < tables.len() && (#[trigger] tables[i]).ops == key
}

/// The handle under which `key` is served: that of its table if there is one, and else the
/// handle of the table that is made for it.
pub open spec fn handle_for(tables: Seq<LookupTableView>, key: Seq<LookupOp>) -> int {
    if has_table(tables, key) {
        choose|i: int| 0 <= i < tables.len() && (#[trigger] tables[i]).ops == key
    } else {
        tables.len() as int
    }
}

/// The tables once `key` was asked for.
pub open spec fn tables_with(tables: Seq<LookupTableView>, key: Seq<LookupOp>, bits: usize) -> Seq<
    LookupTableView,
> {
    if has_table(tables, key) {
        tables
    } else {
        tables.push(LookupTableView { ops: key, bits })
    }
}

/// Asking for a key keeps the keys distinct, and the handle names a table of that key.
pub proof fn lemma_tables_with(tables: Seq<LookupTableView>, key: Seq<LookupOp>, bits: usize)
    requires
        distinct_keys(tables),
    ensures
        distinct_keys(tables_with(tables, key, bits)),
        0 <= handle_for(tables, key) < tables_with(tables, key, bits).len(),
        tables_with(tables, key, bits)[handle_for(tables, key)].ops == key,
        forall|i: int| 0 <= i < tables.len() ==> #[trigger] tables_with(tables, key, bits)[i] == tables[i],
        tables.len() <= tables_with(tables, key, bits).len() <= tables.len() + 1,
{
}

/// Whether two keys hold the same operations in the same order.
pub fn same_key(a: &Vec<LookupOp>, b: &Vec<LookupOp>) -> (r: bool)
    ensures
        r == (a@ == b@),
{
    if a.len() != b.len() {
        return false;
    }
    let mut k: usize = 0;
    while k < a.len()
        invariant
            k <= a.len(),
            a.len() == b.len(),
            forall|j: int| 0 <= j < k ==> a@[j] == b@[j],
        decreases a.len() - k,
    {
        if a[k] != b[k] {
            return false;
        }
        k += 1;
    }
    assert(a@ =~= b@);
    true
}

impl LookupTables {
    /// A registry without tables.
    pub fn new() -> (tables: LookupTables)
        ensures
            tables@ == Seq::<LookupTableView>::empty(),
    {
        let tables = LookupTables { tables: Vec::new() };
        assert(tables@ =~= Seq::<LookupTableView>::empty());
        tables
    }

    /// The number of tables.
    pub fn len(&self) -> (n: usize)
        ensures
            n == self@.len(),
    {
        self.tables.len()
    }

    /// The handle of the table of key `key`, if there is one.
    pub fn find(&self, key: &Vec<LookupOp>) -> (r: Option<usize>)
        ensures
            r is Some <==> has_table(self@, key@),
            r matches Some(h) ==> h < self@.len() && self@[h as int].ops == key@,
    {
        let mut h: usize = 0;
        while h < self.tables.len()
            invariant
                h <= self.tables.len(),
                forall|i: int| 0 <= i < h ==> (#[trigger] self@[i]).ops != key@,
            decreases self.tables.len() - h,
        {
            if same_key(&self.tables[h].ops, key) {
                assert(self@[h as int].ops == key@);
                return Some(h);
            }
            h += 1;
        }
        None
    }

    /// Hands out the table that implements `op_list`: the one that exists for this key, or
    /// a new one of width `bits` if none does. Equal keys get equal handles.
    pub fn get_or_create_table(&mut self, op_list: Vec<LookupOp>, bits: usize) -> (handle: usize)
        requires
            distinct_keys(old(self)@),
        ensures
            final(self)@ == tables_with(old(self)@, op_list@, bits),
            handle == handle_for(old(self)@, op_list@),
            distinct_keys(final(self)@),
            handle < final(self)@.len(),
            final(self)@[handle as int].ops == op_list@,
    {
        proof {
            lemma_tables_with(self@, op_list@, bits);
        }
        match self.find(&op_list) {
            Some(h) => {
                proof {
                    let c = handle_for(self@, op_list@);
                    assert(self@[c].ops == self@[h as int].ops);
                }
                h
            },
            None => {
                let h = self.tables.len();
                self.tables.push(LookupTable { ops: op_list, bits });
                assert(self@ =~= old(self)@.push(LookupTableView { ops: op_list@, bits }));
                h
            },
        }
    }
}

} // verus!
