//! Matching and templating core of an HTTP stub server.
//!
//! - `json`: JSON documents in plain values (`Jsn`) and their mathematical
//!   value (`Json`).
//! - `optic`: paths into documents (`JsonOptic`), parsed from and rendered to
//!   their human form and rendered to JSON-path form.
//! - `access`: what an optic addresses in a document, and writing and pruning
//!   along it.
//! - `predicate`: conditions on what optics address, and their verdict.
//! - `sql_json`: conditions that a store tests, rendered as jsonpath SQL.
//! - `template`: template expressions inside strings, and patching documents
//!   with them.
//! - `model`: stubs, what they ask of requests and what they answer.
//! - `resolver`: narrowing the stubs found for a request to the one that answers.
//! - `error`, `text`: errors, and text helpers.

pub mod json;
pub mod text;
pub mod optic;
pub mod access;
pub mod predicate;
pub mod error;
pub mod sql_json;
pub mod template;
pub mod model;
pub mod resolver;
