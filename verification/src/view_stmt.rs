//! View DDL statements and their rendered SQL text.
//!
//! The surrounding SQL parser and its full syntax tree are outside this
//! library: an identifier is held as its name, and a view's defining
//! query as its SQL text. What is verified is the rendering: the exact
//! text each statement prints.

use vstd::prelude::*;
use vstd::string::StringExecFns;

verus! {

/// A SQL identifier, held as its name.
#[derive(Debug, Clone, PartialEq, Eq)]
pub struct Identifier {
    pub name: String,
}

/// A view's defining query, held as its SQL text.
#[derive(Debug, Clone, PartialEq, Eq)]
pub struct Query {
    pub text: String,
}

/// The name of an optional identifier.
pub open spec fn spec_ident_opt(o: Option<Identifier>) -> Option<Seq<char>> {
    match o {
        Some(i) => Some(i.name@),
        None => None,
    }
}

/// The catalog, database and view names that are present, joined with
/// periods.
pub open spec fn spec_qualified(
    catalog: Option<Seq<char>>,
    database: Option<Seq<char>>,
    name: Seq<char>,
) -> Seq<char> {
    match (catalog, database) {
        (Some(c), Some(d)) => c + "."@ + d + "."@ + name,
        (Some(c), None) => c + "."@ + name,
        (None, Some(d)) => d + "."@ + name,
        (None, None) => name,
    }
}

/// Names joined with comma and space.
pub open spec fn spec_comma_join(names: Seq<Seq<char>>) -> Seq<char>
    decreases names.len(),
{
    if names.len() == 0 {
        Seq::empty()
    } else if names.len() == 1 {
        names[0]
    } else {
        spec_comma_join(names.drop_last()) + ", "@ + names.last()
    }
}

/// The column names of a statement.
pub open spec fn spec_column_names(columns: Seq<Identifier>) -> Seq<Seq<char>> {
    columns.map_values(|i: Identifier| i.name@)
}

/// The parenthesized column list, or nothing when there are no columns.
pub open spec fn spec_column_list(columns: Seq<Identifier>) -> Seq<char> {
    if columns.len() == 0 {
        Seq::empty()
    } else {
        " ("@ + spec_comma_join(spec_column_names(columns)) + ")"@
    }
}

/// Append the catalog, database and view names, period-separated.
fn append_qualified(
    out: &mut String,
    catalog: &Option<Identifier>,
    database: &Option<Identifier>,
    name: &Identifier,
)
    ensures
        final(out)@ == old(out)@ + spec_qualified(
            spec_ident_opt(*catalog),
            spec_ident_opt(*database),
            name.name@,
        ),
{
    if let Some(c) = catalog {
        out.append(c.name.as_str());
        out.append(".");
    }
    if let Some(d) = database {
        out.append(d.name.as_str());
        out.append(".");
    }
    out.append(name.name.as_str());
    proof {
        assert(final(out)@ =~= old(out)@ + spec_qualified(
            spec_ident_opt(*catalog),
            spec_ident_opt(*database),
            name.name@,
        ));
    }
}

/// Append the parenthesized column list, when there are columns.
#[verifier::loop_isolation(false)]
fn append_columns(out: &mut String, columns: &Vec<Identifier>)
    ensures
        final(out)@ == old(out)@ + spec_column_list(columns@),
{
    let n = columns.len();
    if n == 0 {
        proof {
            assert(final(out)@ =~= old(out)@ + spec_column_list(columns@));
        }
        return ;
    }
    out.append(" (");
    let mut i: usize = 0;
    while i < n
        invariant
            1 <= n,
            i <= n,
            out@ == old(out)@ + " ("@ + spec_comma_join(
                spec_column_names(columns@.take(i as int)),
            ),
        decreases n - i,
    {
        if i > 0 {
            out.append(", ");
        }
        out.append(columns[i].name.as_str());
        proof {
            let names = spec_column_names(columns@.take(i + 1));
            assert(names.drop_last() =~= spec_column_names(columns@.take(i as int)));
            assert(names.last() == columns@[i as int].name@);
            if i == 0 {
                assert(out@ =~= old(out)@ + " ("@ + spec_comma_join(names));
            } else {
                assert(out@ =~= old(out)@ + " ("@ + (spec_comma_join(names.drop_last())
                    + ", "@ + names.last()));
            }
        }
        i += 1;
    }
    out.append(")");
    proof {
        assert(columns@.take(n as int) =~= columns@);
        assert(out@ =~= old(out)@ + spec_column_list(columns@));
    }
}

/// `CREATE VIEW`, with an optional `IF NOT EXISTS`, the qualified view
/// name, an optional column list, and the defining query.
#[derive(Debug, Clone, PartialEq, Eq)]
pub struct CreateViewStmt {
    pub if_not_exists: bool,
    pub catalog: Option<Identifier>,
    pub database: Option<Identifier>,
    pub view: Identifier,
    pub columns: Vec<Identifier>,
    pub query: Box<Query>,
}

/// The exact SQL text a `CREATE VIEW` statement renders to.
pub open spec fn spec_create_view(s: CreateViewStmt) -> Seq<char> {
    "CREATE VIEW "@ + (if s.if_not_exists {
        "IF NOT EXISTS "@
    } else {
        Seq::<char>::empty()
    }) + spec_qualified(spec_ident_opt(s.catalog), spec_ident_opt(s.database), s.view.name@)
        + spec_column_list(s.columns@) + " AS "@ + s.query.text@
}

impl CreateViewStmt {
    /// Render the statement as SQL text.
    pub fn display(&self) -> (r: String)
        ensures
            r@ == spec_create_view(*self),
    {
        let mut out: String = "CREATE VIEW ".to_owned();
        if self.if_not_exists {
            out.append("IF NOT EXISTS ");
        }
        append_qualified(&mut out, &self.catalog, &self.database, &self.view);
        append_columns(&mut out, &self.columns);
        out.append(" AS ");
        out.append(self.query.text.as_str());
        proof {
            assert(out@ =~= spec_create_view(*self));
        }
        out
    }
}

/// `ALTER VIEW`: the qualified view name, an optional column list, and
/// the new defining query.
#[derive(Debug, Clone, PartialEq, Eq)]
pub struct AlterViewStmt {
    pub catalog: Option<Identifier>,
    pub database: Option<Identifier>,
    pub view: Identifier,
    pub columns: Vec<Identifier>,
    pub query: Box<Query>,
}

/// The exact SQL text an `ALTER VIEW` statement renders to.
pub open spec fn spec_alter_view(s: AlterViewStmt) -> Seq<char> {
    "ALTER VIEW "@ + spec_qualified(
        spec_ident_opt(s.catalog),
        spec_ident_opt(s.database),
        s.view.name@,
    ) + spec_column_list(s.columns@) + " AS "@ + s.query.text@
}

impl AlterViewStmt {
    /// Render the statement as SQL text.
    pub fn display(&self) -> (r: String)
        ensures
            r@ == spec_alter_view(*self),
    {
        let mut out: String = "ALTER VIEW ".to_owned();
        append_qualified(&mut out, &self.catalog, &self.database, &self.view);
        append_columns(&mut out, &self.columns);
        out.append(" AS ");
        out.append(self.query.text.as_str());
        proof {
            assert(out@ =~= spec_alter_view(*self));
        }
        out
    }
}

/// `DROP VIEW`, with an optional `IF EXISTS` and the qualified view name.
#[derive(Debug, Clone, PartialEq, Eq)]
pub struct DropViewStmt {
    pub if_exists: bool,
    pub catalog: Option<Identifier>,
    pub database: Option<Identifier>,
    pub view: Identifier,
}

/// The exact SQL text a `DROP VIEW` statement renders to.
pub open spec fn spec_drop_view(s: DropViewStmt) -> Seq<char> {
    "DROP VIEW "@ + (if s.if_exists {
        "IF EXISTS "@
    } else {
        Seq::<char>::empty()
    }) + spec_qualified(spec_ident_opt(s.catalog), spec_ident_opt(s.database), s.view.name@)
}

impl DropViewStmt {
    /// Render the statement as SQL text.
    pub fn display(&self) -> (r: String)
        ensures
            r@ == spec_drop_view(*self),
    {
        let mut out: String = "DROP VIEW ".to_owned();
        if self.if_exists {
            out.append("IF EXISTS ");
        }
        append_qualified(&mut out, &self.catalog, &self.database, &self.view);
        proof {
            assert(out@ =~= spec_drop_view(*self));
        }
        out
    }
}

} // verus!
