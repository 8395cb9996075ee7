//! The chained environment store.
//!
//! Environments are cells in one growing arena; a cell holds its own
//! bindings and the index of its outer cell. A handle to an environment is
//! the index of its cell, so handles are cheap to copy, two handles are the
//! same environment exactly when they are equal, and a `define` through one
//! handle is seen through every other handle to the same cell.

use vstd::prelude::*;
use vstd::string::StringExecFns;

use crate::sem;
use crate::sem::CellModel;
use crate::value::SubrOp;
use crate::value::SyntaxOp;
use crate::value::Value;

verus! {

/// One environment cell: bindings (later entries shadow earlier ones) and
/// the optional outer cell.
pub struct EnvCell {
    pub entries: Vec<(String, Value)>,
    pub outer: Option<usize>,
}

/// The arena of environment cells. Lookup starts at a cell and walks the
/// outer links; insertion mutates one cell in place.
pub struct ChainMap {
    pub cells: Vec<EnvCell>,
}

impl View for ChainMap {
    type V = Seq<CellModel>;

    open spec fn view(&self) -> Seq<CellModel> {
        sem::cells_model(self.cells@)
    }
}

/// The environment of the interpreter.
pub type Env = ChainMap;

impl ChainMap {
    /// Outer links point strictly downwards, so every lookup chain ends.
    pub open spec fn wf(&self) -> bool {
        forall|i: int| #![trigger self@[i]]
            0 <= i < self@.len() ==> match self@[i].outer {
                Some(o) => 0 <= o < i,
                None => true,
            }
    }

    /// A fresh store holding one root cell, the cell with index 0.
    pub fn new() -> (r: ChainMap)
        ensures
            r@.len() == 1,
            r@[0] == (CellModel { entries: Seq::empty(), outer: None::<int> }),
            r.wf(),
    {
        let mut cells: Vec<EnvCell> = Vec::new();
        cells.push(EnvCell { entries: Vec::new(), outer: None });
        let r = ChainMap { cells };
        proof {
            sem::lemma_cells_model_index(r.cells@);
        }
        r
    }

    /// A new empty cell whose lookups fall through to `outer`; its index is
    /// returned.
    pub fn extend(&mut self, outer: usize) -> (r: usize)
        requires
            old(self).wf(),
            outer < old(self)@.len(),
        ensures
            r == old(self)@.len(),
            final(self)@ =~= sem::store_extend(old(self)@, outer as int),
            final(self).wf(),
    {
        let r = self.cells.len();
        self.cells.push(EnvCell { entries: Vec::new(), outer: Some(outer) });
        proof {
            assert(self.cells@.drop_last() =~= old(self).cells@);
            sem::lemma_cells_model_index(old(self).cells@);
            sem::lemma_cells_model_index(self.cells@);
        }
        r
    }

    /// Shallow insertion into cell `id`; overwrites any same-level binding;
    /// never touches outer cells. An out-of-range id changes nothing.
    pub fn insert(&mut self, id: usize, key: String, value: Value)
        ensures
            final(self)@ =~= sem::store_insert(old(self)@, id as int, key@, value@),
            old(self).wf() ==> final(self).wf(),
    {
        proof {
            sem::lemma_cells_model_index(self.cells@);
        }
        if id < self.cells.len() {
            let cell = &mut self.cells[id];
            let ghost old_entries = cell.entries@;
            cell.entries.push((key, value));
            proof {
                assert(cell.entries@.drop_last() =~= old_entries);
                sem::lemma_cells_model_update(
                    old(self).cells@,
                    id as int,
                    self.cells@[id as int],
                );
                assert(sem::entries_model(cell.entries@) =~= sem::entries_model(old_entries).push(
                    (key@, value@),
                ));
            }
        }
    }

    /// Inner-to-outer first-match lookup starting at cell `id`.
    pub fn get(&self, id: usize, key: &String) -> (r: Option<&Value>)
        requires
            self.wf(),
        ensures
            match r {
                Some(v) => sem::lookup(self@, id as int, key@) == Some(v@),
                None => sem::lookup(self@, id as int, key@) is None,
            },
    {
        proof {
            sem::lemma_cells_model_index(self.cells@);
        }
        let mut cur = id;
        loop
            invariant
                self.wf(),
                sem::cells_model(self.cells@).len() == self.cells@.len(),
                forall|i: int| 0 <= i < self.cells@.len()
                    ==> sem::cells_model(self.cells@)[i] == sem::cell_model(self.cells@[i]),
                sem::lookup(self@, id as int, key@) == sem::lookup(self@, cur as int, key@),
            decreases cur,
        {
            if cur >= self.cells.len() {
                return None;
            }
            let cell = &self.cells[cur];
            let ghost centries = sem::cells_model(self.cells@)[cur as int].entries;
            proof {
                sem::lemma_entries_model_index(cell.entries@);
            }
            let mut j = cell.entries.len();
            proof {
                assert(centries.take(centries.len() as int) =~= centries);
            }
            while j > 0
                invariant
                    self.wf(),
                    cur < self.cells@.len(),
                    self@.len() == self.cells@.len(),
                    centries == self@[cur as int].entries,
                    sem::lookup(self@, id as int, key@) == sem::lookup(self@, cur as int, key@),
                    j <= cell.entries@.len(),
                    cell == self.cells@[cur as int],
                    centries == sem::entries_model(cell.entries@),
                    centries.len() == cell.entries@.len(),
                    forall|i: int| 0 <= i < cell.entries@.len()
                        ==> centries[i] == (cell.entries@[i].0@, sem::value_model(
                            cell.entries@[i].1,
                        )),
                    sem::assoc(centries, key@) == sem::assoc(centries.take(j as int), key@),
                decreases j,
            {
                proof {
                    sem::lemma_assoc_take_step(centries, key@, j - 1);
                }
                j = j - 1;
                if cell.entries[j].0 == *key {
                    proof {
                        assert(centries.take(j + 1).last() == centries[j as int]);
                    }
                    return Some(&cell.entries[j].1);
                }
            }
            proof {
                assert(centries.take(0) =~= Seq::empty());
            }
            match cell.outer {
                Some(o) => {
                    cur = o;
                },
                None => {
                    return None;
                },
            }
        }
    }
}

impl Env {
    /// The default environment: one root cell pre-populated with every
    /// special form and primitive procedure under its surface name.
    pub fn new_default() -> (r: ChainMap)
        ensures
            r@.len() == 1,
            r.wf(),
            r@[0] == (CellModel { entries: sem::default_entries(), outer: None::<int> }),
    {
        let mut env = ChainMap::new();
        env.insert(0, "define".to_owned(), Value::Syntax(SyntaxOp::Define));
        env.insert(0, "quote".to_owned(), Value::Syntax(SyntaxOp::Quote));
        env.insert(0, "lambda".to_owned(), Value::Syntax(SyntaxOp::Lambda));
        env.insert(0, "if".to_owned(), Value::Syntax(SyntaxOp::If));
        env.insert(0, "call/cc".to_owned(), Value::Syntax(SyntaxOp::CallCc));
        env.insert(0, "cons".to_owned(), Value::Subr(SubrOp::Cons));
        env.insert(0, "car".to_owned(), Value::Subr(SubrOp::Car));
        env.insert(0, "cdr".to_owned(), Value::Subr(SubrOp::Cdr));
        env.insert(0, "eqv?".to_owned(), Value::Subr(SubrOp::Eqv));
        env.insert(0, "=".to_owned(), Value::Subr(SubrOp::NumEq));
        env.insert(0, "+".to_owned(), Value::Subr(SubrOp::Add));
        env.insert(0, "-".to_owned(), Value::Subr(SubrOp::Sub));
        env.insert(0, "*".to_owned(), Value::Subr(SubrOp::Mul));
        env.insert(0, "/".to_owned(), Value::Subr(SubrOp::Div));
        env.insert(0, "print".to_owned(), Value::Subr(SubrOp::Print));
        env.insert(0, "print-env".to_owned(), Value::Subr(SubrOp::PrintEnv));
        proof {
            assert(env@[0].entries =~= sem::default_entries());
        }
        env
    }

    /// Print the bindings of cell `id`, one per line, for diagnostics.
    pub fn print(&self, id: usize) {
        if id < self.cells.len() {
            let cell = &self.cells[id];
            let n = cell.entries.len();
            let mut i: usize = 0;
            while i < n
                invariant
                    n == cell.entries@.len(),
            decreases n - i,
            {
                let mut line = String::new();
                line.append(cell.entries[i].0.as_str());
                line.append(" = ");
                let vt = cell.entries[i].1.to_text();
                line.append(vt.as_str());
                crate::value::emit_line(line.as_str());
                i = i + 1;
            }
        }
    }
}

} // verus!
