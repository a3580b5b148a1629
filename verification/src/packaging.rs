use vstd::prelude::*;

use crate::errors::LuneError;
use crate::paths::{bytes_eq, spec_replace_backslashes};

verus! {

/// The inputs of a packaging run: the script entry file, an optional output
/// path and target, and paths to embed alongside the compiled script.
#[derive(Debug, Clone)]
pub struct BuildCommand {
    pub input: String,
    pub output: Option<String>,
    pub target: Option<String>,
    pub embed: Vec<String>,
}

/// The archive entry name for an embedded file: its path with every
/// backslash turned into a forward slash.
pub fn embed_entry_name(path: &[u8]) -> (r: Vec<u8>)
    ensures
        r@ == spec_replace_backslashes(path@),
{
    let n = path.len();
    let mut r: Vec<u8> = Vec::new();
    let mut i: usize = 0;
    while i < n
        invariant
            0 <= i <= n,
            n == path@.len(),
            r@.len() == i,
            forall|j: int|
                0 <= j < i ==> r@[j] == (if path@[j] == 0x5cu8 {
                    0x2fu8
                } else {
                    path@[j]
                }),
        decreases n - i,
    {
        let b = path[i];
        if b == 0x5c {
            r.push(0x2f);
        } else {
            r.push(b);
        }
        i += 1;
    }
    proof {
        assert(r@ =~= spec_replace_backslashes(path@));
    }
    r
}

/// True when `suffix` closes `s`.
pub open spec fn spec_ends_with(s: Seq<u8>, suffix: Seq<u8>) -> bool {
    s.len() >= suffix.len() && s.subrange(s.len() - suffix.len(), s.len() as int) == suffix
}

/// The bytes of the `.luau` source extension.
pub open spec fn spec_luau_ext() -> Seq<u8> {
    seq![0x2eu8, 0x6cu8, 0x75u8, 0x61u8, 0x75u8]
}

/// The bytes of the `.lua` source extension.
pub open spec fn spec_lua_ext() -> Seq<u8> {
    seq![0x2eu8, 0x6cu8, 0x75u8, 0x61u8]
}

/// The default output path for an input script: the input with a trailing
/// source extension removed, and otherwise unchanged.
pub open spec fn spec_default_output(input: Seq<u8>) -> Seq<u8> {
    if spec_ends_with(input, spec_luau_ext()) {
        input.take(input.len() - 5)
    } else if spec_ends_with(input, spec_lua_ext()) {
        input.take(input.len() - 4)
    } else {
        input
    }
}

/// Derives the default output path from the input path when none was given.
pub fn default_output_path(input: &[u8]) -> (r: Vec<u8>)
    ensures
        r@ == spec_default_output(input@),
{
    let n = input.len();
    let luau = n >= 5 && input[n - 5] == 0x2e && input[n - 4] == 0x6c && input[n - 3] == 0x75
        && input[n - 2] == 0x61 && input[n - 1] == 0x75;
    let lua = n >= 4 && input[n - 4] == 0x2e && input[n - 3] == 0x6c && input[n - 2] == 0x75
        && input[n - 1] == 0x61;
    proof {
        if n >= 5 {
            let s5 = input@.subrange(n - 5, n as int);
            assert forall|i: int| 0 <= i < 5 implies s5[i] == input@[n - 5 + i] by {}
            if luau {
                assert(s5 =~= spec_luau_ext());
            } else {
                assert(s5 != spec_luau_ext()) by {
                    if s5 == spec_luau_ext() {
                        assert(s5[0] == 0x2e && s5[1] == 0x6c && s5[2] == 0x75 && s5[3] == 0x61
                            && s5[4] == 0x75);
                    }
                }
            }
        }
        if n >= 4 {
            let s4 = input@.subrange(n - 4, n as int);
            assert forall|i: int| 0 <= i < 4 implies s4[i] == input@[n - 4 + i] by {}
            if lua {
                assert(s4 =~= spec_lua_ext());
            } else {
                assert(s4 != spec_lua_ext()) by {
                    if s4 == spec_lua_ext() {
                        assert(s4[0] == 0x2e && s4[1] == 0x6c && s4[2] == 0x75 && s4[3] == 0x61);
                    }
                }
            }
        }
    }
    let keep: usize = if luau {
        n - 5
    } else if lua {
        n - 4
    } else {
        n
    };
    let mut r: Vec<u8> = Vec::new();
    let mut i: usize = 0;
    while i < keep
        invariant
            0 <= i <= keep <= n,
            n == input@.len(),
            r@ =~= input@.take(i as int),
        decreases keep - i,
    {
        r.push(input[i]);
        i += 1;
    }
    proof {
        assert(r@ =~= input@.take(keep as int));
    }
    r
}

/// The fatal check made before any packaging work: the output path must not
/// equal the input path, so a prior valid output is never overwritten by its
/// own source.
pub fn check_output_path(input: &[u8], output: &[u8]) -> (r: Result<(), LuneError>)
    ensures
        r is Ok <==> input@ != output@,
        r is Err ==> r == Err::<(), LuneError>(LuneError::OutputPathConflict),
{
    if bytes_eq(input, output) {
        Err(LuneError::OutputPathConflict)
    } else {
        Ok(())
    }
}

} // verus!
