//! Selections from tables.

use vstd::prelude::*;
use vstd::string::*;
use crate::arith::{number_or_null, number_value};
use crate::bridge::{count, counted};
use crate::db::{has_table, table_at, Database, Table, TableModel};
use crate::error::{Error, Res};
use crate::fpu::{ask, computes, total, Calc, Unit};
use crate::value::{bind, lookup, row_views, Fields, Json, JsonVal, Row};

verus! {

/// What a query selects of a table: a member of every row, or an aggregate of a selection.
#[derive(Debug, PartialEq)]
pub enum Expr {
    Get(String),
    Sum(Box<Expr>),
    Max(Box<Expr>),
    Min(Box<Expr>),
}

/// The mathematical value of a selection.
pub enum Select {
    Get(Seq<char>),
    Sum(Box<Select>),
    Max(Box<Select>),
    Min(Box<Select>),
}

impl View for Expr {
    type V = Select;

    open spec fn view(&self) -> Select
        decreases self,
    {
        match self {
            Expr::Get(name) => Select::Get(name@),
            Expr::Sum(arg) => Select::Sum(Box::new((**arg).view())),
            Expr::Max(arg) => Select::Max(Box::new((**arg).view())),
            Expr::Min(arg) => Select::Min(Box::new((**arg).view())),
        }
    }
}

/// The views of a sequence of selections, one for one.
pub open spec fn select_views(s: Seq<Expr>) -> Seq<Select> {
    Seq::new(s.len(), |i: int| s[i]@)
}

/// The name under which a selection stands in a row of the result: the name of the member,
/// or the aggregate with its operand in brackets.
pub open spec fn expr_text(e: Select) -> Seq<char>
    decreases e,
{
    match e {
        Select::Get(name) => name,
        Select::Sum(arg) => "sum("@ + expr_text(*arg) + ")"@,
        Select::Max(arg) => "max("@ + expr_text(*arg) + ")"@,
        Select::Min(arg) => "min("@ + expr_text(*arg) + ")"@,
    }
}

impl Expr {
    /// The name under which the selection stands in a row of the result.
    pub fn to_string(&self) -> (s: String)
        ensures
            s@ == expr_text(self@),
        decreases self,
    {
        match self {
            Expr::Get(name) => name.clone(),
            Expr::Sum(arg) => {
                let mut s = "sum(".to_owned();
                s.append(arg.to_string().as_str());
                s.append(")");
                s
            },
            Expr::Max(arg) => {
                let mut s = "max(".to_owned();
                s.append(arg.to_string().as_str());
                s.append(")");
                s
            },
            Expr::Min(arg) => {
                let mut s = "min(".to_owned();
                s.append(arg.to_string().as_str());
                s.append(")");
                s
            },
        }
    }
}

/// The mathematical value of a query.
pub struct QueryModel {
    pub selects: Seq<Select>,
    pub from: Seq<char>,
}

/// A selection from one table.
#[derive(Debug, PartialEq)]
pub struct Query {
    selects: Vec<Expr>,
    from: String,
}

impl View for Query {
    type V = QueryModel;

    closed spec fn view(&self) -> QueryModel {
        QueryModel { selects: select_views(self.selects@), from: self.from@ }
    }
}

/// A row under the first `n` selections: the members that the selections name and the row
/// has, under their names.
pub open spec fn picked(selects: Seq<Select>, row: Fields, n: nat) -> Fields
    decreases n,
{
    if n == 0 || n > selects.len() {
        Seq::empty()
    } else {
        let rest = picked(selects, row, (n - 1) as nat);
        match selects[n - 1] {
            Select::Get(key) => match lookup(row, key) {
                Some(val) => bind(rest, key, val),
                None => rest,
            },
            _ => rest,
        }
    }
}

/// The first `n` rows under the selections, without the rows of which nothing is selected.
pub open spec fn picked_rows(selects: Seq<Select>, rows: Seq<Fields>, n: nat) -> Seq<Fields>
    decreases n,
{
    if n == 0 || n > rows.len() {
        Seq::empty()
    } else {
        let rest = picked_rows(selects, rows, (n - 1) as nat);
        let row = picked(selects, rows[n - 1], selects.len());
        if row.len() == 0 {
            rest
        } else {
            rest.push(row)
        }
    }
}

/// The sum of the member `key` over the first `n` rows, added row by row from zero; a row
/// where the member is missing or no number adds nothing. `None` where the unit gave no
/// number.
pub open spec fn column_upto(rows: Seq<Fields>, key: Seq<char>, unit: Unit, n: nat) -> Option<
    serde_json::Number,
>
    decreases n,
{
    if n == 0 || n > rows.len() {
        unit(Calc::Float(counted(0)))
    } else {
        match column_upto(rows, key, unit, (n - 1) as nat) {
            Some(t) => match lookup(rows[n - 1], key) {
                Some(Json::Number(x)) => unit(Calc::Add(t, x)),
                _ => Some(t),
            },
            None => None,
        }
    }
}

/// A row of the result with the aggregates of the first `n` selections: the sum of a member
/// over all rows of the table stands under the selection's name.
pub open spec fn aggregated(
    selects: Seq<Select>,
    out: Fields,
    rows: Seq<Fields>,
    unit: Unit,
    n: nat,
) -> Fields
    decreases n,
{
    if n == 0 || n > selects.len() {
        out
    } else {
        let rest = aggregated(selects, out, rows, unit, (n - 1) as nat);
        match selects[n - 1] {
            Select::Sum(arg) => match *arg {
                Select::Get(key) => bind(
                    rest,
                    expr_text(selects[n - 1]),
                    number_or_null(column_upto(rows, key, unit, rows.len())),
                ),
                _ => rest,
            },
            _ => rest,
        }
    }
}

/// Whether a selection is the sum of a member.
pub open spec fn sums_member(s: Select) -> bool {
    match s {
        Select::Sum(arg) => *arg is Get,
        _ => false,
    }
}

/// Whether no selection is the sum of a member: the result then needs no arithmetic.
pub open spec fn sums_nothing(selects: Seq<Select>) -> bool {
    forall|i: int| 0 <= i < selects.len() ==> !sums_member(#[trigger] selects[i])
}

/// The rows that a query gives of the rows of its table where no selection is a sum: the rows
/// under its selections, or one row without members where no row is selected.
pub open spec fn selected_plain(selects: Seq<Select>, rows: Seq<Fields>) -> Seq<Fields> {
    let found = picked_rows(selects, rows, rows.len());
    if found.len() == 0 {
        seq![Seq::empty()]
    } else {
        found
    }
}

/// What a query gives of the tables: the rows of its table under its selections, the first of
/// them with the aggregates; where no row is selected, one row of the aggregates alone.
pub open spec fn selected(q: QueryModel, tables: Seq<TableModel>, unit: Unit) -> Result<
    Seq<Fields>,
    Error,
> {
    if !has_table(tables, q.from) {
        Err(Error::TableNotFound)
    } else {
        let rows = tables[table_at(tables, q.from)].rows;
        let found = picked_rows(q.selects, rows, rows.len());
        if found.len() == 0 {
            Ok(seq![aggregated(q.selects, Seq::empty(), rows, unit, q.selects.len())])
        } else {
            Ok(found.update(0, aggregated(q.selects, found[0], rows, unit, q.selects.len())))
        }
    }
}

impl Query {
    /// The query that selects `selects` from the table `from`.
    pub fn from(selects: Vec<Expr>, from: String) -> (q: Query)
        ensures
            q@ == (QueryModel { selects: select_views(selects@), from: from@ }),
    {
        Self { selects, from }
    }

    /// The selections and the name of the table.
    pub fn into_parts(self) -> (parts: (Vec<Expr>, String))
        ensures
            select_views(parts.0@) == self@.selects,
            parts.1@ == self@.from,
    {
        (self.selects, self.from)
    }

    /// Runs the query on the tables of a database.
    pub fn exec<F: Fn(Calc) -> Option<serde_json::Number>>(&self, db: &Database, fpu: &F) -> (r:
        Res<Vec<Row>>)
        requires
            total(fpu),
        ensures
            forall|unit: Unit| #[trigger] computes(fpu, unit) ==> match r {
                Ok(rows) => selected(self@, db@.tables, unit) == Ok::<Seq<Fields>, Error>(
                    row_views(rows@),
                ),
                Err(e) => selected(self@, db@.tables, unit) == Err::<Seq<Fields>, Error>(e),
            },
            match r {
                Ok(rows) => has_table(db@.tables, self@.from) && ({
                    let all = db@.tables[table_at(db@.tables, self@.from)].rows;
                    let plain = selected_plain(self@.selects, all);
                    &&& rows@.len() == plain.len()
                    &&& forall|i: int| 1 <= i < rows@.len() ==> rows@[i]@ == plain[i]
                    &&& sums_nothing(self@.selects) ==> row_views(rows@) == plain
                }),
                Err(e) => e == Error::TableNotFound && !has_table(db@.tables, self@.from),
            },
    {
        let tbl = match db.find_table(self.from.as_str()) {
            Some(tbl) => tbl,
            None => {
                return Err(Error::TableNotFound);
            },
        };
        let mut rows = eval_rows(&self.selects, tbl)?;
        if rows.len() == 0 {
            let mut row = Row::new();
            eval_aggregations(&self.selects, &mut row, tbl.rows(), fpu)?;
            rows.push(row);
            assert(row_views(rows@) =~= seq![row@]);
        } else {
            let ghost before = row_views(rows@);
            let mut first = rows.remove(0);
            eval_aggregations(&self.selects, &mut first, tbl.rows(), fpu)?;
            rows.insert(0, first);
            assert(row_views(rows@) =~= before.update(0, first@));
            assert forall|i: int| 1 <= i < rows@.len() implies rows@[i]@ == before[i] by {
                assert(row_views(rows@)[i] == rows@[i]@);
            }
        }
        Ok(rows)
    }
}

/// Puts the aggregates that the selections ask for into a row of the result.
pub fn eval_aggregations<F: Fn(Calc) -> Option<serde_json::Number>>(
    selects: &Vec<Expr>,
    out: &mut Row,
    rows: &Vec<Row>,
    fpu: &F,
) -> (r: Res<()>)
    requires
        total(fpu),
    ensures
        r is Ok,
        sums_nothing(select_views(selects@)) ==> final(out)@ == old(out)@,
        forall|unit: Unit| #[trigger] computes(fpu, unit) ==> final(out)@ == aggregated(
            select_views(selects@),
            old(out)@,
            row_views(rows@),
            unit,
            selects@.len(),
        ),
{
    let mut i: usize = 0;
    while i < selects.len()
        invariant
            total(fpu),
            i <= selects.len(),
            sums_nothing(select_views(selects@)) ==> out@ == old(out)@,
            forall|unit: Unit| #[trigger] computes(fpu, unit) ==> out@ == aggregated(
                select_views(selects@),
                old(out)@,
                row_views(rows@),
                unit,
                i as nat,
            ),
        decreases selects.len() - i,
    {
        let select = &selects[i];
        assert(select_views(selects@)[i as int] == select@);
        match select {
            Expr::Sum(arg) => {
                assert(select@ == Select::Sum(Box::new((**arg)@)));
                match &**arg {
                    Expr::Get(key) => {
                        assert((**arg)@ == Select::Get(key@));
                        let total = eval_sum(rows, key.as_str(), fpu);
                        out.insert(select.to_string(), total);
                    },
                    _ => {},
                }
            },
            _ => {},
        }
        i += 1;
    }
    Ok(())
}

/// The rows of a table under the selections, without the rows of which nothing is selected.
pub fn eval_rows(selects: &Vec<Expr>, tbl: &Table) -> (r: Res<Vec<Row>>)
    ensures
        r matches Ok(rows) && row_views(rows@) == picked_rows(
            select_views(selects@),
            tbl@.rows,
            tbl@.rows.len(),
        ),
{
    let mut rows: Vec<Row> = Vec::new();
    let all = tbl.rows();
    let mut i: usize = 0;
    assert(row_views(rows@) =~= Seq::<Fields>::empty());
    while i < all.len()
        invariant
            i <= all.len(),
            row_views(all@) == tbl@.rows,
            row_views(rows@) == picked_rows(select_views(selects@), tbl@.rows, i as nat),
        decreases all.len() - i,
    {
        let ghost before = row_views(rows@);
        match eval_row(selects, &all[i]) {
            Ok(row) => {
                if !row.is_empty() {
                    rows.push(row);
                    assert(row_views(rows@) =~= before.push(row@));
                }
            },
            Err(e) => {
                return Err(e);
            },
        }
        i += 1;
    }
    Ok(rows)
}

/// A row under the selections: the members that the selections name and the row has.
pub fn eval_row(selects: &Vec<Expr>, row: &Row) -> (r: Res<Row>)
    ensures
        r matches Ok(obj) && obj@ == picked(select_views(selects@), row@, selects@.len()),
{
    let mut obj = Row::new();
    let mut i: usize = 0;
    while i < selects.len()
        invariant
            i <= selects.len(),
            obj@ == picked(select_views(selects@), row@, i as nat),
        decreases selects.len() - i,
    {
        let select = &selects[i];
        match select {
            Expr::Get(key) => {
                if let Some(val) = row.get(key.as_str()) {
                    obj.insert(select.to_string(), val.clone());
                }
            },
            _ => {},
        }
        i += 1;
    }
    Ok(obj)
}

/// The sum of a member over the rows of a table; `Null` where the sum is no finite number.
pub fn eval_sum<F: Fn(Calc) -> Option<serde_json::Number>>(
    rows: &Vec<Row>,
    key: &str,
    fpu: &F,
) -> (r: JsonVal)
    requires
        total(fpu),
    ensures
        forall|unit: Unit| #[trigger] computes(fpu, unit) ==> r@ == number_or_null(
            column_upto(row_views(rows@), key@, unit, rows@.len()),
        ),
{
    let mut sum = ask(fpu, Calc::Float(count(0)));
    let mut i: usize = 0;
    while i < rows.len()
        invariant
            total(fpu),
            i <= rows.len(),
            forall|unit: Unit| #[trigger] computes(fpu, unit) ==> sum == column_upto(
                row_views(rows@),
                key@,
                unit,
                i as nat,
            ),
        decreases rows.len() - i,
    {
        sum = match sum {
            Some(t) => match json_f64(&rows[i], key) {
                Some(x) => ask(fpu, Calc::Add(t, x.clone())),
                None => Some(t),
            },
            None => None,
        };
        i += 1;
    }
    number_value(sum)
}

/// The member of a row under a key, where it is a number.
pub fn json_f64<'a>(row: &'a Row, key: &str) -> (r: Option<&'a serde_json::Number>)
    ensures
        match r {
            Some(n) => lookup(row@, key@) == Some(Json::Number(*n)),
            None => !(lookup(row@, key@) matches Some(Json::Number(_))),
        },
{
    match row.get(key) {
        Some(JsonVal::Number(num)) => Some(num),
        _ => None,
    }
}

} // verus!
