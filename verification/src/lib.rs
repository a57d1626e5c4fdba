//! Annotations for GitHub Actions from the output of Cargo commands.
//!
//! The messages of a build tool ([`cargo::rustc`] for the compiler and its lints,
//! [`cargo::rustfmt`] for the formatter) are turned into [`github::Annotation`]s. A
//! [`session::Session`] keeps the annotations seen so far in an ordered set
//! ([`set::AnnotationSet`]), gives back the workflow commands of those that are new, and lets
//! a [`cargo::SummaryWriter`] build the report of the run.
//!
//! Every function is verified against its contract. The contracts speak of the views of the
//! data: text is a sequence of characters, and the functions of [`text`], [`order`] and
//! [`path`] say what is done to it.

pub mod cargo;
pub mod github;
pub mod order;
pub mod path;
pub mod session;
pub mod set;
pub mod text;
pub mod views;
