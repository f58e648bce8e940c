//! State and event payloads of the webview front end: the interface locale
//! it keeps, and the progress it reports while indexing and exporting.
use vstd::prelude::*;
use std::sync::Mutex;

verus! {

#[verifier::external_type_specification]
#[verifier::external_body]
#[verifier::reject_recursive_types(T)]
pub struct ExMutex<T: ?Sized>(Mutex<T>);

/// The interface locale, shared between the front end's commands.
pub struct AppLocale(pub Mutex<String>);

/// How far indexing a file has come.
#[derive(Debug, Clone)]
pub struct IndexProgress {
    pub percent: u32,
    pub current: u64,
    pub total: u64,
}

/// How far an export has come.
#[derive(Debug, Clone)]
pub struct ExportProgress {
    pub current: u64,
    pub total: u64,
}

} // verus!
