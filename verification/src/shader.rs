//! Shader kinds. Compiling a shader program needs the GL backend, so the
//! code that does it lives with the backend, behind the same seam as the
//! other loading work; the kind markers themselves live here.

use vstd::prelude::*;

verus! {

/// The default sprite shader kind: textured, with one transform matrix.
/// Rendering code selects it by this marker; the backend owns its program
/// sources and their compilation.
pub struct Default;

} // verus!
