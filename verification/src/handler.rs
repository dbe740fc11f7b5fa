//! Which handler takes which statement.

use vstd::prelude::*;

verus! {

/// The kinds of objects that a `DROP` can name.
#[derive(Clone, Copy, Debug, PartialEq, Eq, Structural)]
pub enum ObjectType {
    Table,
    View,
    MaterializedView,
    Index,
    Schema,
    Source,
}

/// A statement, as far as the choice of its handler looks at it.
#[derive(Clone, Copy, Debug, PartialEq, Eq, Structural)]
pub enum Statement {
    Explain { verbose: bool },
    CreateSource { is_materialized: bool },
    CreateTable,
    Describe,
    ShowColumn,
    ShowObjects,
    Drop { object_type: ObjectType },
    Query,
    Insert,
    Delete,
    CreateView { materialized: bool, or_replace: bool },
    Flush,
    SetVariable,
    CreateIndex { unique: bool, if_not_exists: bool },
    /// Any other statement.
    Other,
}

/// The handlers of statements.
#[derive(Clone, Copy, Debug, PartialEq, Eq, Structural)]
pub enum Handler {
    Explain { verbose: bool },
    CreateSource { is_materialized: bool },
    CreateTable,
    Describe,
    ShowObject,
    DropTable,
    DropMv,
    DropSource,
    Query,
    Dml,
    CreateMv,
    Flush,
    SetVariable,
    CreateIndex,
}

/// Why no handler takes a statement.
#[derive(Clone, Copy, Debug, PartialEq, Eq, Structural)]
pub enum HandlerError {
    /// A `DROP` of a kind of object that cannot be dropped.
    DropUnsupported(ObjectType),
    /// `CREATE UNIQUE INDEX`.
    CreateUniqueIndex,
    /// `CREATE INDEX IF NOT EXISTS`.
    CreateIfNotExistsIndex,
    /// A statement that has no handler.
    UnhandledAst,
}

/// The handler of a statement, or why it has none.
pub open spec fn handler_of(stmt: Statement) -> Result<Handler, HandlerError> {
    match stmt {
        Statement::Explain { verbose } => Ok(Handler::Explain { verbose }),
        Statement::CreateSource { is_materialized } => Ok(Handler::CreateSource { is_materialized }),
        Statement::CreateTable => Ok(Handler::CreateTable),
        Statement::Describe => Ok(Handler::Describe),
        Statement::ShowColumn => Ok(Handler::Describe),
        Statement::ShowObjects => Ok(Handler::ShowObject),
        Statement::Drop { object_type } => match object_type {
            ObjectType::Table => Ok(Handler::DropTable),
            ObjectType::MaterializedView => Ok(Handler::DropMv),
            ObjectType::Source => Ok(Handler::DropSource),
            _ => Err(HandlerError::DropUnsupported(object_type)),
        },
        Statement::Query => Ok(Handler::Query),
        Statement::Insert => Ok(Handler::Dml),
        Statement::Delete => Ok(Handler::Dml),
        Statement::CreateView { materialized, or_replace } => if materialized && !or_replace {
            Ok(Handler::CreateMv)
        } else {
            Err(HandlerError::UnhandledAst)
        },
        Statement::Flush => Ok(Handler::Flush),
        Statement::SetVariable => Ok(Handler::SetVariable),
        Statement::CreateIndex { unique, if_not_exists } => if unique {
            Err(HandlerError::CreateUniqueIndex)
        } else if if_not_exists {
            Err(HandlerError::CreateIfNotExistsIndex)
        } else {
            Ok(Handler::CreateIndex)
        },
        Statement::Other => Err(HandlerError::UnhandledAst),
    }
}

/// Chooses the handler of a statement.
pub fn handle(stmt: Statement) -> (r: Result<Handler, HandlerError>)
    ensures
        r == handler_of(stmt),
{
    match stmt {
        Statement::Explain { verbose } => Ok(Handler::Explain { verbose }),
        Statement::CreateSource { is_materialized } => Ok(Handler::CreateSource { is_materialized }),
        Statement::CreateTable => Ok(Handler::CreateTable),
        Statement::Describe => Ok(Handler::Describe),
        Statement::ShowColumn => Ok(Handler::Describe),
        Statement::ShowObjects => Ok(Handler::ShowObject),
        Statement::Drop { object_type } => {
            match object_type {
                ObjectType::Table => Ok(Handler::DropTable),
                ObjectType::MaterializedView => Ok(Handler::DropMv),
                ObjectType::Source => Ok(Handler::DropSource),
                _ => Err(HandlerError::DropUnsupported(object_type)),
            }
        },
        Statement::Query => Ok(Handler::Query),
        Statement::Insert | Statement::Delete => Ok(Handler::Dml),
        Statement::CreateView { materialized: true, or_replace: false } => Ok(Handler::CreateMv),
        Statement::Flush => Ok(Handler::Flush),
        Statement::SetVariable => Ok(Handler::SetVariable),
        Statement::CreateIndex { unique, if_not_exists } => {
            if unique {
                return Err(HandlerError::CreateUniqueIndex);
            }
            if if_not_exists {
                return Err(HandlerError::CreateIfNotExistsIndex);
            }
            Ok(Handler::CreateIndex)
        },
        _ => Err(HandlerError::UnhandledAst),
    }
}

} // verus!
