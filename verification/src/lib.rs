//! The native half of the `para/api` package: the `@openapi` directive, and the percent-encoder that
//! its generated code needs.
//!
//! ```noeta ignore
//! @openapi("petstore.json")
//! struct PetStore {}
//!
//! store = PetStore.new(Api.new(client.new(PetStore.base_url())))
//! resp = store.show_pet_by_id("7")?
//! ```
//!
//! The struct is written empty: the directive generates the `api` field, a `new`, a `base_url()` and
//! one method per operation of the document. A document goes through [`json`] and [`spec`] and comes
//! out of [`codegen`] as source; [`expansion`] is the directive round them.
pub mod codegen;
pub mod codegen_laws;
pub mod expansion;
pub mod extension;
pub mod json;
pub mod names;
pub mod spec;
pub mod spec_laws;
pub mod text;
pub mod url;

pub use extension::ParaApiExtension;
