use vstd::prelude::*;
use crate::syntax::{same_text, Constraint, ConstraintView};

verus! {

/// A comparison operator of the closed set `<`, `<=`, `>`, `>=`, `==`, `!=`.
#[derive(Debug, Clone, Copy, PartialEq, Eq, Structural)]
pub enum Comparison {
    Lt,
    Le,
    Gt,
    Ge,
    Eq,
    Ne,
}

/// The comparison that an operator text names, if it is in the closed set.
pub open spec fn comparison_of(op: Seq<char>) -> Option<Comparison> {
    if op == "<"@ {
        Some(Comparison::Lt)
    } else if op == "<="@ {
        Some(Comparison::Le)
    } else if op == ">"@ {
        Some(Comparison::Gt)
    } else if op == ">="@ {
        Some(Comparison::Ge)
    } else if op == "=="@ {
        Some(Comparison::Eq)
    } else if op == "!="@ {
        Some(Comparison::Ne)
    } else {
        None
    }
}

/// What an assertion holds: variable name, comparison, constant.
pub type AtomView = (Seq<char>, Comparison, i64);

/// One assertion handed to a solver: a named integer variable compared with a constant.
#[derive(Debug)]
pub struct Atom {
    pub var: String,
    pub cmp: Comparison,
    pub value: i64,
}

impl View for Atom {
    type V = AtomView;

    open spec fn view(&self) -> AtomView {
        (self.var@, self.cmp, self.value)
    }
}

pub open spec fn atom_views(atoms: Seq<Atom>) -> Seq<AtomView> {
    atoms.map_values(|a: Atom| a@)
}

/// Whether `x` compares with `v` as `cmp` says.
pub open spec fn compares(x: int, cmp: Comparison, v: int) -> bool {
    match cmp {
        Comparison::Lt => x < v,
        Comparison::Le => x <= v,
        Comparison::Gt => x > v,
        Comparison::Ge => x >= v,
        Comparison::Eq => x == v,
        Comparison::Ne => x != v,
    }
}

/// Whether an assignment of integers to names meets every assertion.
pub open spec fn meets_all(env: spec_fn(Seq<char>) -> int, atoms: Seq<AtomView>) -> bool {
    forall|i: int| 0 <= i < atoms.len() ==> compares(env(#[trigger] atoms[i].0), atoms[i].1, atoms[i].2 as int)
}

/// Whether some assignment of integers to names meets every assertion; distinct names are
/// distinct variables.
pub open spec fn satisfiable(atoms: Seq<AtomView>) -> bool {
    exists|env: spec_fn(Seq<char>) -> int| meets_all(env, atoms)
}

/// The constraints whose operator is in the closed set, as assertions, in order.
pub open spec fn supported_atoms(cs: Seq<ConstraintView>) -> Seq<AtomView>
    decreases cs.len(),
{
    if cs.len() == 0 {
        Seq::empty()
    } else {
        let rest = supported_atoms(cs.drop_last());
        let c = cs.last();
        match comparison_of(c.1) {
            Some(cmp) => rest.push((c.0, cmp, c.2)),
            None => rest,
        }
    }
}

/// Whether every operator of `cs` is in the closed set.
pub open spec fn all_supported(cs: Seq<ConstraintView>) -> bool {
    forall|i: int| 0 <= i < cs.len() ==> (#[trigger] comparison_of(cs[i].1)) is Some
}

/// An operator outside the closed set.
#[derive(Debug, PartialEq, Eq)]
pub struct UnsupportedOperator {
    pub op: String,
}

/// Builds the solver input for consistency and reachability checks over linear-integer
/// constraints. It holds no state between calls.
#[derive(Debug)]
pub struct Verifier;

pub fn parse_comparison(op: &str) -> (r: Option<Comparison>)
    ensures
        r == comparison_of(op@),
{
    if same_text(op, "<") {
        Some(Comparison::Lt)
    } else if same_text(op, "<=") {
        Some(Comparison::Le)
    } else if same_text(op, ">") {
        Some(Comparison::Gt)
    } else if same_text(op, ">=") {
        Some(Comparison::Ge)
    } else if same_text(op, "==") {
        Some(Comparison::Eq)
    } else if same_text(op, "!=") {
        Some(Comparison::Ne)
    } else {
        None
    }
}

impl Verifier {
    pub fn new() -> (v: Verifier) {
        Verifier
    }

    /// The assertions for a consistency check: each constraint with a supported operator,
    /// in order; the others are dropped.
    pub fn consistency_query(&self, constraints: &Vec<Constraint>) -> (r: Vec<Atom>)
        ensures
            atom_views(r@) == supported_atoms(constraints@.map_values(|c: Constraint| c@)),
    {
        let ghost cv = constraints@.map_values(|c: Constraint| c@);
        let mut r: Vec<Atom> = Vec::new();
        let mut i: usize = 0;
        while i < constraints.len()
            invariant
                cv == constraints@.map_values(|c: Constraint| c@),
                i <= constraints@.len(),
                atom_views(r@) == supported_atoms(cv.subrange(0, i as int)),
            decreases constraints@.len() - i,
        {
            assert(cv.subrange(0, i as int + 1).drop_last() =~= cv.subrange(0, i as int));
            let c = &constraints[i];
            match parse_comparison(c.op.as_str()) {
                Some(cmp) => {
                    let a = Atom { var: c.var.clone(), cmp, value: c.val };
                    let ghost before = atom_views(r@);
                    r.push(a);
                    assert(atom_views(r@) =~= before.push(a@));
                },
                None => {},
            }
            i = i + 1;
        }
        assert(cv.subrange(0, cv.len() as int) =~= cv);
        r
    }

    /// The assertions for a reachability check: the constraints and then the target; an
    /// error that names an operator outside the closed set when there is one.
    pub fn reachability_query(&self, constraints: &Vec<Constraint>, target: &Constraint) -> (r:
        Result<Vec<Atom>, UnsupportedOperator>)
        ensures
            match r {
                Ok(atoms) => all_supported(constraints@.map_values(|c: Constraint| c@))
                    && comparison_of(target.op@) is Some && atom_views(atoms@) == supported_atoms(
                    constraints@.map_values(|c: Constraint| c@).push(target@),
                ),
                Err(e) => !(all_supported(constraints@.map_values(|c: Constraint| c@))
                    && comparison_of(target.op@) is Some) && comparison_of(e.op@) is None,
            },
    {
        let ghost cv = constraints@.map_values(|c: Constraint| c@);
        let mut i: usize = 0;
        while i < constraints.len()
            invariant
                cv == constraints@.map_values(|c: Constraint| c@),
                i <= constraints@.len(),
                forall|k: int| 0 <= k < i ==> (#[trigger] comparison_of(cv[k].1)) is Some,
            decreases constraints@.len() - i,
        {
            if parse_comparison(constraints[i].op.as_str()).is_none() {
                assert(comparison_of(cv[i as int].1) is None);
                return Err(UnsupportedOperator { op: constraints[i].op.clone() });
            }
            i = i + 1;
        }
        let cmp = match parse_comparison(target.op.as_str()) {
            Some(c) => c,
            None => return Err(UnsupportedOperator { op: target.op.clone() }),
        };
        let mut atoms = self.consistency_query(constraints);
        let a = Atom { var: target.var.clone(), cmp, value: target.val };
        let ghost before = atom_views(atoms@);
        atoms.push(a);
        assert(cv.push(target@).drop_last() =~= cv);
        assert(atom_views(atoms@) =~= before.push(a@));
        Ok(atoms)
    }
}

/// The comparison that each operator text of the closed set names.
pub proof fn lemma_operator_names()
    ensures
        comparison_of("<"@) == Some(Comparison::Lt),
        comparison_of("<="@) == Some(Comparison::Le),
        comparison_of(">"@) == Some(Comparison::Gt),
        comparison_of(">="@) == Some(Comparison::Ge),
        comparison_of("=="@) == Some(Comparison::Eq),
        comparison_of("!="@) == Some(Comparison::Ne),
{
    reveal_strlit("<");
    reveal_strlit("<=");
    reveal_strlit(">");
    reveal_strlit(">=");
    reveal_strlit("==");
    reveal_strlit("!=");
    assert("<"@.len() == 1 && "<"@[0] == '<');
    assert(">"@.len() == 1 && ">"@[0] == '>');
    assert("<="@.len() == 2 && "<="@[0] == '<');
    assert(">="@.len() == 2 && ">="@[0] == '>');
    assert("=="@.len() == 2 && "=="@[0] == '=');
    assert("!="@.len() == 2 && "!="@[0] == '!');
}

/// A check of no constraints at all finds them consistent.
pub proof fn lemma_nothing_is_consistent()
    ensures
        satisfiable(supported_atoms(Seq::empty())),
{
    let env = |s: Seq<char>| 0int;
    assert(meets_all(env, supported_atoms(Seq::empty())));
}

/// A single equality constraint `x == v` is consistent.
pub proof fn lemma_equality_is_consistent(x: Seq<char>, v: i64)
    ensures
        satisfiable(supported_atoms(seq![(x, "=="@, v)])),
{
    lemma_operator_names();
    let cs = seq![(x, "=="@, v)];
    assert(cs.drop_last() =~= Seq::<ConstraintView>::empty());
    let atoms = supported_atoms(cs);
    assert(comparison_of("=="@) == Some(Comparison::Eq));
    assert(supported_atoms(cs.drop_last()) =~= Seq::<AtomView>::empty());
    assert(atoms =~= seq![(x, Comparison::Eq, v)]);
    let env = |s: Seq<char>| v as int;
    assert(meets_all(env, atoms));
}

/// Reaching `x < b` under `x > a` is possible exactly when `b > a + 1`.
pub proof fn lemma_reachability_between(x: Seq<char>, a: i64, b: i64)
    ensures
        satisfiable(supported_atoms(seq![(x, ">"@, a)].push((x, "<"@, b))))
            <==> b as int > a as int + 1,
{
    lemma_operator_names();
    let cs = seq![(x, ">"@, a)].push((x, "<"@, b));
    assert(cs.drop_last() =~= seq![(x, ">"@, a)]);
    assert(cs.drop_last().drop_last() =~= Seq::<ConstraintView>::empty());
    let atoms = supported_atoms(cs);
    assert(comparison_of(">"@) == Some(Comparison::Gt));
    assert(comparison_of("<"@) == Some(Comparison::Lt));
    assert(supported_atoms(cs.drop_last().drop_last()) =~= Seq::<AtomView>::empty());
    assert(supported_atoms(cs.drop_last()) =~= seq![(x, Comparison::Gt, a)]);
    assert(atoms =~= seq![(x, Comparison::Gt, a), (x, Comparison::Lt, b)]);
    if b as int > a as int + 1 {
        let env = |s: Seq<char>| a as int + 1;
        assert(meets_all(env, atoms));
    }
    if satisfiable(atoms) {
        let env = choose|env: spec_fn(Seq<char>) -> int| meets_all(env, atoms);
        assert(compares(env(atoms[0].0), atoms[0].1, atoms[0].2 as int));
        assert(compares(env(atoms[1].0), atoms[1].1, atoms[1].2 as int));
    }
}

/// `x > 10` and `x < 5` together are inconsistent.
pub proof fn lemma_disjoint_bounds_inconsistent(x: Seq<char>)
    ensures
        !satisfiable(supported_atoms(seq![(x, ">"@, 10i64), (x, "<"@, 5i64)])),
{
    assert(seq![(x, ">"@, 10i64), (x, "<"@, 5i64)] =~= seq![(x, ">"@, 10i64)].push(
        (x, "<"@, 5i64),
    ));
    lemma_reachability_between(x, 10, 5);
}

/// `x != 10` cannot be reached under `x == 10`.
pub proof fn lemma_equal_excludes_unequal(x: Seq<char>, v: i64)
    ensures
        !satisfiable(supported_atoms(seq![(x, "=="@, v)].push((x, "!="@, v)))),
{
    lemma_operator_names();
    let cs = seq![(x, "=="@, v)].push((x, "!="@, v));
    assert(cs.drop_last() =~= seq![(x, "=="@, v)]);
    assert(cs.drop_last().drop_last() =~= Seq::<ConstraintView>::empty());
    let atoms = supported_atoms(cs);
    assert(comparison_of("=="@) == Some(Comparison::Eq));
    assert(comparison_of("!="@) == Some(Comparison::Ne));
    assert(supported_atoms(cs.drop_last().drop_last()) =~= Seq::<AtomView>::empty());
    assert(supported_atoms(cs.drop_last()) =~= seq![(x, Comparison::Eq, v)]);
    assert(atoms =~= seq![(x, Comparison::Eq, v), (x, Comparison::Ne, v)]);
    if satisfiable(atoms) {
        let env = choose|env: spec_fn(Seq<char>) -> int| meets_all(env, atoms);
        assert(compares(env(atoms[0].0), atoms[0].1, atoms[0].2 as int));
        assert(compares(env(atoms[1].0), atoms[1].1, atoms[1].2 as int));
    }
}

} // verus!
