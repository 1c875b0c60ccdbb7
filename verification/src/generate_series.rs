//! Binding of the table function `generate_series`.
use vstd::prelude::*;
use crate::catalog::{DataType, Field};

verus! {

/// A bound expression, seen by the type of the values it returns.
#[derive(Debug, Clone, Copy, PartialEq, Eq, Structural)]
pub struct ExprImpl {
    pub return_type: DataType,
}

impl ExprImpl {
    pub fn return_type(&self) -> (r: DataType)
        ensures
            r == self.return_type,
    {
        self.return_type
    }
}

/// Why binding failed.
#[derive(Debug, Clone, Copy, PartialEq, Eq, Structural)]
pub enum BindError {
    /// `generate_series` was not given exactly three arguments.
    GenerateSeriesArgCount,
    /// The arguments' types do not fit `generate_series`.
    GenerateSeriesInvalidArguments,
    /// A table of that name is already bound in the context.
    DuplicatedTableName,
    /// A column that an expression names is not in the context.
    ColumnNotFound,
}

/// A bound call of `generate_series`: its argument expressions and the type
/// of the values it yields.
#[derive(Debug)]
pub struct BoundGenerateSeriesFunction {
    pub args: Vec<ExprImpl>,
    pub data_type: DataType,
}

/// The type that `generate_series` yields for arguments whose first three
/// have these types: `(start, stop, step)` are `(i32, i32, i32)` or
/// `(timestamp, timestamp, interval)`; anything else, or fewer than three
/// arguments, has none.
pub open spec fn series_type(args: Seq<ExprImpl>) -> Option<DataType> {
    if args.len() < 3 {
        None
    } else {
        match (args[0].return_type, args[1].return_type, args[2].return_type) {
            (DataType::Int32, DataType::Int32, DataType::Int32) => Some(DataType::Int32),
            (DataType::Timestamp, DataType::Timestamp, DataType::Interval) => Some(
                DataType::Timestamp,
            ),
            _ => None,
        }
    }
}

/// Checks the types of the arguments of `generate_series` and gives the type
/// of the values it yields.
pub fn type_check(exprs: &[ExprImpl]) -> (r: Result<DataType, BindError>)
    ensures
        match series_type(exprs@) {
            Some(t) => r == Ok::<DataType, BindError>(t),
            None => r == Err::<DataType, BindError>(BindError::GenerateSeriesInvalidArguments),
        },
        r matches Ok(t) ==> {
            &&& exprs@.len() >= 3
            &&& {
                ||| exprs@[0].return_type == DataType::Int32 && exprs@[1].return_type == DataType::Int32
                    && exprs@[2].return_type == DataType::Int32 && t == DataType::Int32
                ||| exprs@[0].return_type == DataType::Timestamp && exprs@[1].return_type
                    == DataType::Timestamp && exprs@[2].return_type == DataType::Interval && t
                    == DataType::Timestamp
            }
        },
        r is Err ==> r == Err::<DataType, BindError>(BindError::GenerateSeriesInvalidArguments),
{
    if exprs.len() < 3 {
        return Err(BindError::GenerateSeriesInvalidArguments);
    }
    let start = exprs[0].return_type();
    let stop = exprs[1].return_type();
    let step = exprs[2].return_type();
    match (start, stop, step) {
        (DataType::Int32, DataType::Int32, DataType::Int32) => Ok(DataType::Int32),
        (DataType::Timestamp, DataType::Timestamp, DataType::Interval) => Ok(DataType::Timestamp),
        _ => Err(BindError::GenerateSeriesInvalidArguments),
    }
}

/// `generate_series` takes exactly `(i32, i32, i32)`, giving an `i32`
/// series, or `(timestamp, timestamp, interval)`, giving a timestamp series;
/// arguments past the third are not looked at, and fewer than three fit
/// nothing.
pub proof fn lemma_series_type_exact(args: Seq<ExprImpl>, t: DataType)
    ensures
        series_type(args) == Some(t) <==> {
            &&& args.len() >= 3
            &&& {
                ||| args[0].return_type == DataType::Int32 && args[1].return_type == DataType::Int32
                    && args[2].return_type == DataType::Int32 && t == DataType::Int32
                ||| args[0].return_type == DataType::Timestamp && args[1].return_type
                    == DataType::Timestamp && args[2].return_type == DataType::Interval && t
                    == DataType::Timestamp
            }
        },
{
}

/// A column bound in the binder's context: the table it belongs to, its
/// position among all bound columns, whether it is hidden, and the column.
#[derive(Debug)]
pub struct ColumnBinding {
    pub table_name: String,
    pub index: usize,
    pub is_hidden: bool,
    pub field: Field,
}

/// A table bound in the context, by name, with the range of its columns.
#[derive(Debug)]
pub struct TableRange {
    pub name: String,
    pub begin: usize,
    pub end: usize,
}

/// What the binder has bound so far: the columns in scope and the tables
/// they belong to.
#[derive(Debug)]
pub struct BindContext {
    pub columns: Vec<ColumnBinding>,
    pub range_of: Vec<TableRange>,
}

/// A table of this name is bound.
pub open spec fn has_table(ranges: Seq<TableRange>, name: Seq<char>) -> bool {
    exists|i: int| 0 <= i < ranges.len() && (#[trigger] ranges[i]).name@ == name
}

/// The columns that binding `fields` of the table `table_name` adds after
/// `begin` columns.
pub open spec fn new_bindings(table_name: String, begin: nat, fields: Seq<Field>) -> Seq<ColumnBinding> {
    Seq::new(
        fields.len(),
        |i: int|
            ColumnBinding {
                table_name,
                index: (begin + i) as usize,
                is_hidden: false,
                field: fields[i],
            },
    )
}

/// A table is bound as soon as any registered table, wherever it stands
/// among them, has the name; and no table is bound while none has it.
pub proof fn lemma_has_table_any_position(ranges: Seq<TableRange>, name: Seq<char>)
    ensures
        forall|i: int| 0 <= i < ranges.len() && (#[trigger] ranges[i]).name@ == name ==> has_table(ranges, name),
        (forall|i: int| 0 <= i < ranges.len() ==> (#[trigger] ranges[i]).name@ != name) ==> !has_table(ranges, name),
{
}

/// Binding a table adds one visible column per field, in order: column `j`
/// belongs to `table_name`, is numbered `begin + j`, and is the field `j`.
pub proof fn lemma_new_bindings_visible(table_name: String, begin: nat, fields: Seq<Field>)
    ensures
        new_bindings(table_name, begin, fields).len() == fields.len(),
        forall|j: int| 0 <= j < fields.len() ==> {
            &&& !(#[trigger] new_bindings(table_name, begin, fields)[j]).is_hidden
            &&& new_bindings(table_name, begin, fields)[j].table_name == table_name
            &&& new_bindings(table_name, begin, fields)[j].index as int == (begin + j) as usize as int
            &&& new_bindings(table_name, begin, fields)[j].field == fields[j]
        },
{
}

/// The context after binding the table `table_name` with `fields`: its
/// columns are added; the table itself is added unless one of that name is
/// already bound.
pub open spec fn context_after_bind(
    old: BindContext,
    new: BindContext,
    fields: Seq<Field>,
    table_name: String,
) -> bool {
    let begin = old.columns@.len();
    &&& new.columns@ == old.columns@ + new_bindings(table_name, begin, fields)
    &&& if has_table(old.range_of@, table_name@) {
        new.range_of@ == old.range_of@
    } else {
        new.range_of@ == old.range_of@.push(
            TableRange { name: table_name, begin: begin as usize, end: (begin + fields.len()) as usize },
        )
    }
}

/// Binds the names of a query to what they denote.
#[derive(Debug)]
pub struct Binder {
    pub context: BindContext,
}

/// The binder's context is as it was: the same columns and tables.
pub open spec fn same_context(a: BindContext, b: BindContext) -> bool {
    &&& a.columns@ == b.columns@
    &&& a.range_of@ == b.range_of@
}

/// Binding the argument `a` with `f` can succeed.
pub open spec fn binds_ok<A, F: Fn(A) -> Result<Vec<ExprImpl>, BindError>>(f: F, a: A) -> bool {
    exists|v: Vec<ExprImpl>| f.ensures((a,), Ok(v))
}

/// The column that `generate_series` yields, of type `t`.
pub open spec fn series_column(f: Field, t: DataType) -> bool {
    f.data_type == t && f.name@ == "generate_series"@
}

impl Binder {
    /// A binder with nothing bound.
    pub fn new() -> (b: Binder)
        ensures
            b.context.columns@ == Seq::<ColumnBinding>::empty(),
            b.context.range_of@ == Seq::<TableRange>::empty(),
    {
        Binder { context: BindContext { columns: Vec::new(), range_of: Vec::new() } }
    }

    /// Binds a table named `table_name` with the columns `fields`: the
    /// columns come into scope, and the table is registered; when a table of
    /// that name is already registered, fails with `DuplicatedTableName`
    /// (the columns are in scope all the same).
    pub fn bind_context(&mut self, fields: Vec<Field>, table_name: String) -> (r: Result<(), BindError>)
        ensures
            context_after_bind(old(self).context, final(self).context, fields@, table_name),
            has_table(old(self).context.range_of@, table_name@) ==> r == Err::<(), BindError>(
                BindError::DuplicatedTableName,
            ),
            !has_table(old(self).context.range_of@, table_name@) ==> r == Ok::<(), BindError>(()),
            forall|i: int|
                0 <= i < old(self).context.range_of@.len() && (#[trigger] old(self).context.range_of@[i]).name@
                    == table_name@ ==> r == Err::<(), BindError>(BindError::DuplicatedTableName),
            r is Ok ==> forall|i: int|
                0 <= i < old(self).context.range_of@.len() ==> (#[trigger] old(self).context.range_of@[i]).name@
                    != table_name@,
            final(self).context.columns@.len() == old(self).context.columns@.len() + fields@.len(),
            forall|i: int|
                0 <= i < old(self).context.columns@.len() ==> #[trigger] final(self).context.columns@[i]
                    == old(self).context.columns@[i],
            forall|j: int|
                0 <= j < fields@.len() ==> {
                    let c = #[trigger] final(self).context.columns@[old(self).context.columns@.len() + j];
                    &&& !c.is_hidden
                    &&& c.table_name == table_name
                    &&& c.index as int == old(self).context.columns@.len() + j
                    &&& c.field == fields@[j]
                },
    {
        let ghost old_columns = self.context.columns@;
        let begin = self.context.columns.len();
        let ghost fs = fields@;
        let mut remaining = fields;
        let mut i: usize = 0;
        let n = remaining.len();
        while i < n
            invariant
                i <= n,
                n == fs.len(),
                begin == old_columns.len(),
                remaining@ =~= fs.subrange(i as int, n as int),
                self.context.columns@ =~= old_columns + new_bindings(table_name, begin as nat, fs.take(i as int)),
                self.context.range_of@ == old(self).context.range_of@,
                old_columns == old(self).context.columns@,
            decreases n - i,
        {
            let field = remaining.remove(0);
            let index = self.context.columns.len();
            self.context.columns.push(
                ColumnBinding { table_name: table_name.clone(), index, is_hidden: false, field },
            );
            i = i + 1;
            assert(self.context.columns@ =~= old_columns + new_bindings(table_name, begin as nat, fs.take(i as int)));
        }
        assert(fs.take(n as int) =~= fs);
        let end = self.context.columns.len();
        let mut k: usize = 0;
        while k < self.context.range_of.len()
            invariant
                k <= self.context.range_of@.len(),
                forall|j: int| 0 <= j < k ==> (#[trigger] self.context.range_of@[j]).name@ != table_name@,
                self.context.range_of@ == old(self).context.range_of@,
                self.context.columns@ == old(self).context.columns@ + new_bindings(table_name, begin as nat, fs),
                begin as nat == old(self).context.columns@.len(),
                end as nat == begin + fs.len(),
                fs == fields@,
            decreases self.context.range_of.len() - k,
        {
            if self.context.range_of[k].name == table_name {
                assert(has_table(old(self).context.range_of@, table_name@)) by {
                    assert(self.context.range_of@[k as int].name@ == table_name@);
                }
                return Err(BindError::DuplicatedTableName);
            }
            k = k + 1;
        }
        self.context.range_of.push(TableRange { name: table_name, begin, end });
        Ok(())
    }

    /// Binds `generate_series(start, stop, step)`.  The call must have
    /// exactly three arguments, checked before any is bound; the arguments
    /// are then bound in turn by `bind_function_arg` to the expressions they
    /// stand for (an argument may stand for several), the first that fails
    /// ending the call with its error; the expressions of all three must
    /// type-check, and the table `generate_series`, with one column of the
    /// series' type, comes into the context (when a table of that name is
    /// already bound, the column comes into scope all the same, and the call
    /// fails with `DuplicatedTableName`).  On every other error the context
    /// is left as it was.
    pub fn bind_generate_series_function<A, F: Fn(A) -> Result<Vec<ExprImpl>, BindError>>(
        &mut self,
        args: Vec<A>,
        bind_function_arg: F,
    ) -> (r: Result<BoundGenerateSeriesFunction, BindError>)
        requires
            forall|i: int| 0 <= i < args@.len() ==> bind_function_arg.requires((#[trigger] args@[i],)),
        ensures
            args@.len() != 3 ==> {
                &&& r == Err::<BoundGenerateSeriesFunction, BindError>(BindError::GenerateSeriesArgCount)
                &&& same_context(old(self).context, final(self).context)
            },
            r matches Ok(b) ==> {
                &&& args@.len() == 3
                &&& final(self).context.columns@.len() == old(self).context.columns@.len() + 1
                &&& !final(self).context.columns@[old(self).context.columns@.len() as int].is_hidden
                &&& final(self).context.columns@[old(self).context.columns@.len() as int].field.data_type
                    == b.data_type
                &&& final(self).context.columns@[old(self).context.columns@.len() as int].field.name@
                    == "generate_series"@
                &&& final(self).context.range_of@.len() == old(self).context.range_of@.len() + 1
                &&& final(self).context.range_of@.last().name@ == "generate_series"@
                &&& exists|e0: Vec<ExprImpl>, e1: Vec<ExprImpl>, e2: Vec<ExprImpl>|
                    {
                        &&& bind_function_arg.ensures((args@[0],), Ok(e0))
                        &&& bind_function_arg.ensures((args@[1],), Ok(e1))
                        &&& bind_function_arg.ensures((args@[2],), Ok(e2))
                        &&& b.args@ == e0@ + e1@ + e2@
                    }
                &&& series_type(b.args@) == Some(b.data_type)
                &&& !has_table(old(self).context.range_of@, "generate_series"@)
                &&& exists|f: Field, name: String|
                    series_column(f, b.data_type) && name@ == "generate_series"@ && context_after_bind(
                        old(self).context,
                        final(self).context,
                        seq![f],
                        name,
                    )
            },
            args@.len() == 3 ==> (r matches Err(e) ==> {
                ||| {
                    &&& exists|k: int|
                        0 <= k < 3 && bind_function_arg.ensures((args@[k],), Err(e)) && forall|j: int|
                            0 <= j < k ==> binds_ok(bind_function_arg, #[trigger] args@[j])
                    &&& same_context(old(self).context, final(self).context)
                }
                ||| exists|e0: Vec<ExprImpl>, e1: Vec<ExprImpl>, e2: Vec<ExprImpl>|
                    {
                        &&& bind_function_arg.ensures((args@[0],), Ok(e0))
                        &&& bind_function_arg.ensures((args@[1],), Ok(e1))
                        &&& bind_function_arg.ensures((args@[2],), Ok(e2))
                        &&& match series_type(e0@ + e1@ + e2@) {
                            None => {
                                &&& e == BindError::GenerateSeriesInvalidArguments
                                &&& same_context(old(self).context, final(self).context)
                            },
                            Some(t) => {
                                &&& e == BindError::DuplicatedTableName
                                &&& has_table(old(self).context.range_of@, "generate_series"@)
                                &&& exists|f: Field, name: String|
                                    series_column(f, t) && name@ == "generate_series"@ && context_after_bind(
                                        old(self).context,
                                        final(self).context,
                                        seq![f],
                                        name,
                                    )
                            },
                        }
                    }
            }),
    {
        if args.len() != 3 {
            return Err(BindError::GenerateSeriesArgCount);
        }
        let ghost a = args@;
        let mut args = args;
        let a0 = args.remove(0);
        let a1 = args.remove(0);
        let a2 = args.remove(0);
        assert(a0 == a[0] && a1 == a[1] && a2 == a[2]);
        // The arguments are bound in turn; the first that fails ends the call.
        let mut exprs = match bind_function_arg(a0) {
            Ok(v) => v,
            Err(e) => {
                assert(bind_function_arg.ensures((a[0],), Err(e)));
                return Err(e);
            },
        };
        let ghost e0 = exprs;
        assert(binds_ok(bind_function_arg, a[0])) by {
            assert(bind_function_arg.ensures((a[0],), Ok(e0)));
        }
        let mut second = match bind_function_arg(a1) {
            Ok(v) => v,
            Err(e) => {
                assert(bind_function_arg.ensures((a[1],), Err(e)));
                return Err(e);
            },
        };
        let ghost e1 = second;
        assert(binds_ok(bind_function_arg, a[1])) by {
            assert(bind_function_arg.ensures((a[1],), Ok(e1)));
        }
        let mut third = match bind_function_arg(a2) {
            Ok(v) => v,
            Err(e) => {
                assert(bind_function_arg.ensures((a[2],), Err(e)));
                return Err(e);
            },
        };
        let ghost e2 = third;
        exprs.append(&mut second);
        exprs.append(&mut third);
        assert(exprs@ =~= e0@ + e1@ + e2@);
        let data_type = match type_check(exprs.as_slice()) {
            Ok(t) => t,
            Err(e) => {
                assert(series_type(e0@ + e1@ + e2@) is None);
                return Err(e);
            },
        };
        let name = "generate_series".to_string();
        let field = Field::with_name(data_type, name);
        let mut columns: Vec<Field> = Vec::new();
        columns.push(field);
        let ghost f = columns@[0];
        assert(columns@ =~= seq![f]);
        let table = "generate_series".to_string();
        let ghost tname = table;
        assert(series_column(f, data_type));
        match self.bind_context(columns, table) {
            Ok(()) => {},
            Err(e) => {
                return Err(e);
            },
        }
        Ok(BoundGenerateSeriesFunction { args: exprs, data_type })
    }
}

} // verus!
