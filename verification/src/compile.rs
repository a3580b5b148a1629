use vstd::prelude::*;

use crate::errors::LuneError;

verus! {

/// The bytecode that the Luau compiler produces for a source, under the
/// fixed configuration this crate uses (optimization 2, coverage 0, debug 1),
/// or nothing when the source does not compile. Compilation under a fixed
/// configuration is a function of the source alone.
pub uninterp spec fn luau_bytecode(source: Seq<u8>) -> Option<Seq<u8>>;

/// The diagnostic the Luau compiler reports for a source that does not
/// compile; like the bytecode, a function of the source alone.
pub uninterp spec fn luau_diagnostic(source: Seq<u8>) -> Seq<char>;

/// Relies on mlua::chunk::Compiler::compile with optimization level 2,
/// coverage level 0 and debug level 1: deterministic bytecode for a source
/// that compiles, the compiler's own diagnostic for one that does not.
#[verifier::external_body]
pub(crate) fn compile_luau(source: &[u8]) -> (r: Result<Vec<u8>, LuneError>)
    ensures
        match r {
            Ok(bc) => luau_bytecode(source@) == Some(bc@),
            Err(LuneError::CompileFailure(m)) => luau_bytecode(source@) is None && m@
                == luau_diagnostic(source@),
            Err(_) => false,
        },
{
    let compiler = mlua::chunk::Compiler::new().set_optimization_level(2).set_coverage_level(
        0,
    ).set_debug_level(1);
    match compiler.compile(source) {
        Ok(bc) => Ok(bc),
        Err(e) => Err(LuneError::CompileFailure(e.to_string())),
    }
}

} // verus!
