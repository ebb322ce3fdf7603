//! A lighter tree of the dump: tables and functions with full names joined
//! by `/`, as the site's paths are, and each function with the chunk name
//! that the dump gives.
use vstd::prelude::*;
use crate::data;
use crate::text;

verus! {

broadcast use vstd::string::group_string_axioms;

/// A table of the outline.
#[derive(Debug)]
pub struct Table {
    pub full_name: String,
    pub name: String,
    pub children: Vec<Table>,
    pub functions: Vec<Function>,
}

/// A function of the outline.
#[derive(Debug)]
pub struct Function {
    pub full_name: String,
    pub name: String,
    pub source: String,
}

/// The model of a `Function`: full name, name, source.
pub struct FunctionView {
    pub full_name: Seq<char>,
    pub name: Seq<char>,
    pub source: Seq<char>,
}

/// The model of a `Table`.
pub struct TableView {
    pub full_name: Seq<char>,
    pub name: Seq<char>,
    pub children: Seq<TableView>,
    pub functions: Seq<FunctionView>,
}

impl View for Function {
    type V = FunctionView;

    open spec fn view(&self) -> FunctionView {
        FunctionView { full_name: self.full_name@, name: self.name@, source: self.source@ }
    }
}

impl View for Table {
    type V = TableView;

    open spec fn view(&self) -> TableView
        decreases self,
    {
        TableView {
            full_name: self.full_name@,
            name: self.name@,
            children: Seq::new(
                self.children@.len(),
                |i: int|
                    if 0 <= i < self.children@.len() {
                        self.children@[i].view()
                    } else {
                        TableView {
                            full_name: seq![],
                            name: seq![],
                            children: seq![],
                            functions: seq![],
                        }
                    },
            ),
            functions: Seq::new(self.functions@.len(), |i: int| self.functions@[i]@),
        }
    }
}

/// The full name of an entry named `name` under `parent`.
pub open spec fn slashed(parent: Seq<char>, name: Seq<char>) -> Seq<char> {
    parent + "/"@ + name
}

/// The function of the outline built from `f` under `parent`.
pub open spec fn function_from_data(parent: Seq<char>, f: data::Function) -> FunctionView {
    FunctionView { full_name: slashed(parent, f.docs_name@), name: f.docs_name@, source: f.source@ }
}

/// The table of the outline built from `t` under `parent`: its nested tables
/// and its functions, in the order of its entries.
pub open spec fn table_from_data(parent: Seq<char>, t: data::Table) -> TableView
    decreases t,
{
    let full = slashed(parent, t.docs_name@);
    TableView {
        full_name: full,
        name: t.docs_name@,
        children: children_from_params(full, t.params@),
        functions: functions_from_params(full, t.params@),
    }
}

/// The tables built from the table entries of `params`.
pub open spec fn children_from_params(full: Seq<char>, params: Seq<(String, data::Node)>) -> Seq<TableView>
    decreases params,
{
    if params.len() == 0 {
        seq![]
    } else {
        let head = match params[0].1 {
            data::Node::Table(t) => seq![table_from_data(full, t)],
            _ => seq![],
        };
        head + children_from_params(full, params.drop_first())
    }
}

/// The functions built from the function entries of `params`.
pub open spec fn functions_from_params(full: Seq<char>, params: Seq<(String, data::Node)>) -> Seq<
    FunctionView,
>
    decreases params.len(),
{
    if params.len() == 0 {
        seq![]
    } else {
        let head = match params[0].1 {
            data::Node::Function(f) => seq![function_from_data(full, f)],
            _ => seq![],
        };
        head + functions_from_params(full, params.drop_first())
    }
}

impl Function {
    /// The function of the outline built from the dump's function `func`
    /// under the table named `parent`.
    pub fn from_data_function(parent: &str, func: data::Function) -> (r: Self)
        ensures
            r@ == function_from_data(parent@, func),
    {
        let mut full_name = text::owned(parent);
        text::push_str(&mut full_name, "/");
        text::push_str(&mut full_name, func.docs_name.as_str());
        Self { full_name, name: func.docs_name, source: func.source }
    }
}

impl Table {
    /// The table of the outline built from the dump's table `node` under the
    /// table named `parent`.
    pub fn from_data_table(parent: &str, node: data::Table) -> (r: Self)
        ensures
            r@ == table_from_data(parent@, node),
        decreases node,
    {
        let ghost orig = node;
        let mut full_name = text::owned(parent);
        text::push_str(&mut full_name, "/");
        text::push_str(&mut full_name, node.docs_name.as_str());
        let mut children: Vec<Table> = Vec::new();
        let mut functions: Vec<Function> = Vec::new();
        let data::Table { docs_name, params } = node;
        let mut params = params;
        let ghost all = params@;
        let ghost fl = full_name@;
        let ghost mut k: int = 0;
        assert(all.skip(0) =~= all);
        assert(Seq::new(children@.len(), |i: int| children@[i]@) + children_from_params(fl, all)
            =~= children_from_params(fl, all));
        assert(Seq::new(functions@.len(), |i: int| functions@[i]@) + functions_from_params(fl, all)
            =~= functions_from_params(fl, all));
        while params.len() > 0
            invariant
                0 <= k <= all.len(),
                params@ == all.skip(k),
                all == orig.params@,
                orig == node,
                fl == full_name@,
                Seq::new(children@.len(), |i: int| children@[i]@) + children_from_params(fl, params@)
                    == children_from_params(fl, all),
                Seq::new(functions@.len(), |i: int| functions@[i]@) + functions_from_params(fl, params@)
                    == functions_from_params(fl, all),
            decreases params@.len(),
        {
            let ghost rest = params@;
            let (_name, child) = params.remove(0);
            assert(params@ =~= rest.drop_first());
            assert(rest.drop_first() =~= all.skip(k + 1));
            assert(rest[0] == all[k]);
            let ghost before_c = Seq::new(children@.len(), |i: int| children@[i]@);
            let ghost before_f = Seq::new(functions@.len(), |i: int| functions@[i]@);
            match child {
                data::Node::Table(t) => {
                    assert(orig.params@[k].1 == data::Node::Table(t));
                    assert(decreases_to!(orig => t));
                    let c = Self::from_data_table(full_name.as_str(), t);
                    children.push(c);
                    assert(Seq::new(children@.len(), |i: int| children@[i]@) =~= before_c.push(c@));
                    assert(Seq::new(children@.len(), |i: int| children@[i]@) + children_from_params(
                        fl,
                        params@,
                    ) =~= before_c + (seq![c@] + children_from_params(fl, params@)));
                    assert(Seq::new(functions@.len(), |i: int| functions@[i]@) + functions_from_params(
                        fl,
                        params@,
                    ) =~= before_f + (Seq::<FunctionView>::empty() + functions_from_params(
                        fl,
                        params@,
                    )));
                },
                data::Node::Function(f) => {
                    let c = Function::from_data_function(full_name.as_str(), f);
                    functions.push(c);
                    assert(Seq::new(functions@.len(), |i: int| functions@[i]@) =~= before_f.push(c@));
                    assert(Seq::new(functions@.len(), |i: int| functions@[i]@) + functions_from_params(
                        fl,
                        params@,
                    ) =~= before_f + (seq![c@] + functions_from_params(fl, params@)));
                    assert(Seq::new(children@.len(), |i: int| children@[i]@) + children_from_params(
                        fl,
                        params@,
                    ) =~= before_c + (Seq::<TableView>::empty() + children_from_params(fl, params@)));
                },
                _ => {
                    assert(Seq::new(children@.len(), |i: int| children@[i]@) + children_from_params(
                        fl,
                        params@,
                    ) =~= before_c + (Seq::<TableView>::empty() + children_from_params(fl, params@)));
                    assert(Seq::new(functions@.len(), |i: int| functions@[i]@) + functions_from_params(
                        fl,
                        params@,
                    ) =~= before_f + (Seq::<FunctionView>::empty() + functions_from_params(
                        fl,
                        params@,
                    )));
                },
            }
            proof {
                k = k + 1;
            }
        }
        assert(Seq::new(children@.len(), |i: int| children@[i]@) =~= Seq::new(
            children@.len(),
            |i: int| children@[i]@,
        ) + children_from_params(fl, params@));
        assert(Seq::new(functions@.len(), |i: int| functions@[i]@) =~= Seq::new(
            functions@.len(),
            |i: int| functions@[i]@,
        ) + functions_from_params(fl, params@));
        let r = Table { full_name, name: docs_name, children, functions };
        assert(r@.children =~= Seq::new(r.children@.len(), |i: int| r.children@[i]@));
        r
    }
}

} // verus!
