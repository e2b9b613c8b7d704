//! The entry of the front end: from a parsed program to a circuit.
use std::rc::Rc;

use vstd::prelude::*;

use crate::ast::TranslationUnit;
use crate::circ::Computation;
use crate::error::CError;
use crate::gen::CGen;
use crate::translate::program;
use crate::translate::Mode;
use crate::translate::Step;

verus! {

/// What the front end works on.
pub struct Inputs {
    /// The program, with the function `main`.
    pub unit: Rc<TranslationUnit>,
    /// What the circuit is for.
    pub mode: Mode,
}

/// The C front end.
pub struct C;

/// Whether `r` is the circuit that the translation `want` ends with, or the error it stops with.
pub open spec fn finished(r: Result<Computation, CError>, want: Step<()>) -> bool {
    match (r, want) {
        (Ok(c), Ok((_, st))) => c.inputs@ == st.circ.inputs && c.outputs@ == st.circ.outputs
            && c.parties@ == st.circ.parties,
        (Err(e), Err(f)) => e == f,
        _ => false,
    }
}

impl C {
    /// Translates the function `main` of a program.
    pub fn gen(i: Inputs) -> (r: Result<Computation, CError>)
        ensures
            exists|main: String|
                main@ == "main"@ && finished(
                    r,
                    #[trigger] program(u64::MAX as nat, i.mode, i.unit.nodes@, main),
                ),
    {
        let main = "main".to_owned();
        let mut g = CGen::new(i.mode, i.unit);
        let visited = g.visit_files();
        if let Err(e) = visited {
            assert(finished(Err(e), program(u64::MAX as nat, i.mode, i.unit.nodes@, main)));
            return Err(e);
        }
        let entered = g.entry_fn(&main);
        if let Err(e) = entered {
            assert(finished(Err(e), program(u64::MAX as nat, i.mode, i.unit.nodes@, main)));
            return Err(e);
        }
        let r = Ok(g.circ.consume());
        assert(finished(r, program(u64::MAX as nat, i.mode, i.unit.nodes@, main)));
        r
    }
}

} // verus!
