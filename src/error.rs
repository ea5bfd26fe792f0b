use vstd::prelude::*;

verus! {

/// The ways in which an operation of the catalog mirror can fail.
#[derive(Debug, Clone, Copy, PartialEq, Eq, Structural)]
pub enum CatalogError {
    /// A qualified name is empty or has an empty segment.
    MalformedName,
    /// No namespace entry exists under the given name.
    NamespaceNotFound,
    /// The name denotes a table where a namespace was expected.
    NotANamespace,
    /// No entry exists under the given table name.
    TableNotFound,
    /// The name denotes a namespace where a table was expected.
    NotATable,
    /// The remote catalog failed while the mirror was being built.
    CatalogUnavailable,
}

} // verus!
