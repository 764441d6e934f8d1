//! Crossover of two candidates.
use vstd::prelude::*;

use crate::collections::{OrderedMap, Value};
use crate::isa_candidate::{CandidateV, ISACandidate};
use crate::isa_optimization::{IsaOptimizationManager, RulesV};
use crate::isa_specification::InstructionV;
use crate::protected_features::{restored, selectable};

verus! {

/// The names of a map's rows, in order.
pub open spec fn row_names<A>(rows: Seq<(Seq<char>, A)>) -> Seq<Seq<char>> {
    Seq::new(rows.len(), |k: int| rows[k].0)
}

/// The names of instructions, in order.
pub open spec fn instruction_names(instructions: Seq<InstructionV>) -> Seq<Seq<char>> {
    Seq::new(instructions.len(), |k: int| instructions[k].name)
}

/// Two maps after the picked ones of the first `n` names have exchanged their values.
pub open spec fn exchanged<A>(
    first: Map<Seq<char>, A>,
    second: Map<Seq<char>, A>,
    names: Seq<Seq<char>>,
    picks: Seq<bool>,
    n: nat,
) -> (Map<Seq<char>, A>, Map<Seq<char>, A>)
    decreases n,
{
    if n == 0 {
        (first, second)
    } else {
        let (a, b) = exchanged(first, second, names, picks, (n - 1) as nat);
        let name = names[n - 1];
        if picks[n - 1] {
            (a.insert(name, b[name]), b.insert(name, a[name]))
        } else {
            (a, b)
        }
    }
}

/// The fields to exchange: those drawn that the search may restrict.
pub open spec fn field_picks(rules: RulesV, names: Seq<Seq<char>>, drawn: Seq<bool>) -> Seq<bool> {
    Seq::new(names.len(), |k: int| drawn[k] && selectable(rules, names[k]))
}

/// The children of two parents: drawn fields and drawn instructions' forms change places, and
/// unrestricted features are put back.
pub open spec fn children(
    rules: RulesV,
    parent1: CandidateV,
    parent2: CandidateV,
    names: Seq<Seq<char>>,
    drawn_fields: Seq<bool>,
    drawn_forms: Seq<bool>,
) -> (CandidateV, CandidateV) {
    let fields = exchanged(
        parent1.valid_field_uses,
        parent2.valid_field_uses,
        names,
        field_picks(rules, names, drawn_fields),
        names.len(),
    );
    let forms = exchanged(
        parent1.active_forms,
        parent2.active_forms,
        instruction_names(rules.instructions),
        drawn_forms,
        rules.instructions.len(),
    );
    (
        restored(rules, CandidateV { valid_field_uses: fields.0, active_forms: forms.0 }),
        restored(rules, CandidateV { valid_field_uses: fields.1, active_forms: forms.1 }),
    )
}

/// Two values are the other two, in either order.
pub open spec fn either_order<A>(a: A, b: A, first: A, second: A) -> bool {
    (a == first && b == second) || (a == second && b == first)
}

/// An exchange keeps the names, and gives each name the two values that it had, in either
/// order; a name that is not picked keeps its values in place.
pub proof fn lemma_exchanged<A>(
    first: Map<Seq<char>, A>,
    second: Map<Seq<char>, A>,
    names: Seq<Seq<char>>,
    picks: Seq<bool>,
    n: nat,
)
    requires
        n <= names.len(),
        forall|k: int|
            0 <= k < n && picks[k] ==> first.contains_key(#[trigger] names[k])
                && second.contains_key(names[k]),
    ensures
        exchanged(first, second, names, picks, n).0.dom() == first.dom(),
        exchanged(first, second, names, picks, n).1.dom() == second.dom(),
        forall|name: Seq<char>| #[trigger]
            either_order(
                exchanged(first, second, names, picks, n).0[name],
                exchanged(first, second, names, picks, n).1[name],
                first[name],
                second[name],
            ),
        forall|name: Seq<char>|
            (forall|k: int| 0 <= k < n && picks[k] ==> #[trigger] names[k] != name) ==> #[trigger]
                exchanged(first, second, names, picks, n).0[name] == first[name] && exchanged(
                    first,
                    second,
                    names,
                    picks,
                    n,
                ).1[name] == second[name],
    decreases n,
{
    if n > 0 {
        lemma_exchanged(first, second, names, picks, (n - 1) as nat);
        let (a, b) = exchanged(first, second, names, picks, (n - 1) as nat);
        let (c, d) = exchanged(first, second, names, picks, n);
        assert(c.dom() =~= a.dom());
        assert(d.dom() =~= b.dom());
        assert forall|name: Seq<char>| #[trigger]
            either_order(c[name], d[name], first[name], second[name]) by {
            assert(either_order(a[name], b[name], first[name], second[name]));
        }
        assert forall|name: Seq<char>|
            (forall|k: int| 0 <= k < n && picks[k] ==> #[trigger] names[k] != name) implies
            #[trigger] c[name] == first[name] && d[name] == second[name] by {
            assert(picks[n - 1] ==> names[n - 1] != name);
            assert(a[name] == first[name] && b[name] == second[name]);
        }
    }
}

/// Crossover leaves the fields alone that the search may not restrict, up to putting
/// unrestricted features back.
pub proof fn lemma_children_keep_unselectable(
    rules: RulesV,
    parent1: CandidateV,
    parent2: CandidateV,
    names: Seq<Seq<char>>,
    drawn_fields: Seq<bool>,
    drawn_forms: Seq<bool>,
    name: Seq<char>,
)
    requires
        parent1.valid_field_uses.dom() == parent2.valid_field_uses.dom(),
        forall|k: int|
            0 <= k < names.len() ==> parent1.valid_field_uses.contains_key(#[trigger] names[k]),
        parent1.valid_field_uses.contains_key(name),
        !selectable(rules, name),
    ensures
        ({
            let (child1, child2) = children(
                rules,
                parent1,
                parent2,
                names,
                drawn_fields,
                drawn_forms,
            );
            &&& child1.valid_field_uses.contains_key(name)
            &&& child2.valid_field_uses.contains_key(name)
            &&& child1.valid_field_uses[name] == restored(rules, parent1).valid_field_uses[name]
            &&& child2.valid_field_uses[name] == restored(rules, parent2).valid_field_uses[name]
        }),
{
    let picks = field_picks(rules, names, drawn_fields);
    assert forall|k: int| 0 <= k < names.len() && picks[k] implies
        parent1.valid_field_uses.contains_key(#[trigger] names[k])
        && parent2.valid_field_uses.contains_key(names[k]) by {
        assert(parent1.valid_field_uses.dom().contains(names[k]));
    }
    lemma_exchanged(
        parent1.valid_field_uses,
        parent2.valid_field_uses,
        names,
        picks,
        names.len(),
    );
    assert(parent1.valid_field_uses.dom().contains(name));
    let fields = exchanged(
        parent1.valid_field_uses,
        parent2.valid_field_uses,
        names,
        picks,
        names.len(),
    );
    assert(fields.0[name] == parent1.valid_field_uses[name]);
    assert(fields.0.dom().contains(name) && fields.1.dom().contains(name));
}

/// Both children have every unrestricted form and all uses of their fields.
pub proof fn lemma_children_keep_unrestricted(
    rules: RulesV,
    parent1: CandidateV,
    parent2: CandidateV,
    names: Seq<Seq<char>>,
    drawn_fields: Seq<bool>,
    drawn_forms: Seq<bool>,
)
    ensures
        ({
            let (child1, child2) = children(
                rules,
                parent1,
                parent2,
                names,
                drawn_fields,
                drawn_forms,
            );
            restored(rules, child1) == child1 && restored(rules, child2) == child2
        }),
{
    let fields = exchanged(
        parent1.valid_field_uses,
        parent2.valid_field_uses,
        names,
        field_picks(rules, names, drawn_fields),
        names.len(),
    );
    let forms = exchanged(
        parent1.active_forms,
        parent2.active_forms,
        instruction_names(rules.instructions),
        drawn_forms,
        rules.instructions.len(),
    );
    crate::protected_features::lemma_restored_twice(
        rules,
        CandidateV { valid_field_uses: fields.0, active_forms: forms.0 },
    );
    crate::protected_features::lemma_restored_twice(
        rules,
        CandidateV { valid_field_uses: fields.1, active_forms: forms.1 },
    );
}

/// Exchanges the values of a name between two maps.
fn exchange<V: Value>(first: &mut OrderedMap<V>, second: &mut OrderedMap<V>, name: &String)
    requires
        old(first)@.contains_key(name@),
        old(second)@.contains_key(name@),
    ensures
        final(first)@ == old(first)@.insert(name@, old(second)@[name@]),
        final(second)@ == old(second)@.insert(name@, old(first)@[name@]),
        old(first).distinct() ==> final(first).distinct(),
        old(second).distinct() ==> final(second).distinct(),
{
    if let Some(mine) = first.get(name.as_str()) {
        if let Some(theirs) = second.get(name.as_str()) {
            let for_second = mine.duplicate();
            let for_first = theirs.duplicate();
            first.insert(name.clone(), for_first);
            second.insert(name.clone(), for_second);
        }
    }
}

impl<'a> IsaOptimizationManager<'a> {
    /// Exchanges drawn fields between two candidates.
    fn exchange_fields(
        &self,
        child1: &mut ISACandidate,
        child2: &mut ISACandidate,
        parent1: &ISACandidate,
        drawn: &Vec<bool>,
    )
        requires
            old(child1).wf(),
            old(child2).wf(),
            old(child1)@.valid_field_uses == parent1@.valid_field_uses,
            parent1@.valid_field_uses.dom() == old(child2)@.valid_field_uses.dom(),
            drawn@.len() == parent1.valid_field_uses.rows().len(),
        ensures
            ({
                let names = row_names(parent1.valid_field_uses.rows());
                (final(child1)@.valid_field_uses, final(child2)@.valid_field_uses) == exchanged(
                    old(child1)@.valid_field_uses,
                    old(child2)@.valid_field_uses,
                    names,
                    field_picks(self@, names, drawn@),
                    names.len(),
                )
            }),
            final(child1)@.active_forms == old(child1)@.active_forms,
            final(child2)@.active_forms == old(child2)@.active_forms,
            final(child1).wf(),
            final(child2).wf(),
    {
        let ghost rows = parent1.valid_field_uses.rows();
        let ghost names = row_names(rows);
        let ghost picks = field_picks(self@, names, drawn@);
        let ghost before1 = child1@.valid_field_uses;
        let ghost before2 = child2@.valid_field_uses;
        proof {
            parent1.valid_field_uses.lemma_rows();
            assert forall|k: int| 0 <= k < names.len() implies before1.contains_key(
                #[trigger] names[k],
            ) && before2.contains_key(names[k]) by {
                lemma_names_listed(rows, k);
                assert(before1.dom().contains(names[k]));
            }
        }
        let mut i: usize = 0;
        while i < parent1.valid_field_uses.len()
            invariant
                rows == parent1.valid_field_uses.rows(),
                names == row_names(rows),
                picks == field_picks(self@, names, drawn@),
                drawn@.len() == rows.len(),
                i <= rows.len(),
                forall|k: int|
                    0 <= k < names.len() ==> before1.contains_key(#[trigger] names[k])
                        && before2.contains_key(names[k]),
                (child1.valid_field_uses@, child2.valid_field_uses@) == exchanged(
                    before1,
                    before2,
                    names,
                    picks,
                    i as nat,
                ),
                child1.active_forms@ == old(child1)@.active_forms,
                child2.active_forms@ == old(child2)@.active_forms,
                child1.wf(),
                child2.wf(),
            decreases rows.len() - i,
        {
            let name = parent1.valid_field_uses.name_at(i);
            proof {
                lemma_exchanged(before1, before2, names, picks, i as nat);
                assert(name@ == names[i as int]);
                assert(child1.valid_field_uses@.dom().contains(name@));
                assert(child2.valid_field_uses@.dom().contains(name@));
            }
            if drawn[i] && self.field_selectable_for_ga_restriction(name) {
                exchange(&mut child1.valid_field_uses, &mut child2.valid_field_uses, name);
            }
            i += 1;
        }
    }

    /// Exchanges the forms of drawn instructions between two candidates.
    fn exchange_forms(
        &self,
        child1: &mut ISACandidate,
        child2: &mut ISACandidate,
        drawn: &Vec<bool>,
    )
        requires
            old(child1).wf(),
            old(child2).wf(),
            drawn@.len() == self@.instructions.len(),
            forall|i: int|
                0 <= i < self@.instructions.len() && drawn@[i] ==> old(
                    child1,
                )@.active_forms.contains_key((#[trigger] self@.instructions[i]).name) && old(
                    child2,
                )@.active_forms.contains_key(self@.instructions[i].name),
        ensures
            (final(child1)@.active_forms, final(child2)@.active_forms) == exchanged(
                old(child1)@.active_forms,
                old(child2)@.active_forms,
                instruction_names(self@.instructions),
                drawn@,
                self@.instructions.len(),
            ),
            final(child1)@.valid_field_uses == old(child1)@.valid_field_uses,
            final(child2)@.valid_field_uses == old(child2)@.valid_field_uses,
            final(child1).wf(),
            final(child2).wf(),
    {
        let ghost instructions = self@.instructions;
        let ghost names = instruction_names(instructions);
        let ghost before1 = child1@.active_forms;
        let ghost before2 = child2@.active_forms;
        proof {
            assert forall|k: int| 0 <= k < names.len() && drawn@[k] implies before1.contains_key(
                #[trigger] names[k],
            ) && before2.contains_key(names[k]) by {
                assert(names[k] == instructions[k].name);
            }
        }
        let mut i: usize = 0;
        while i < self.isa.instructions.len()
            invariant
                instructions == self@.instructions,
                names == instruction_names(instructions),
                drawn@.len() == instructions.len(),
                i <= instructions.len(),
                forall|k: int|
                    0 <= k < names.len() && drawn@[k] ==> before1.contains_key(#[trigger] names[k])
                        && before2.contains_key(names[k]),
                (child1.active_forms@, child2.active_forms@) == exchanged(
                    before1,
                    before2,
                    names,
                    drawn@,
                    i as nat,
                ),
                child1.valid_field_uses@ == old(child1)@.valid_field_uses,
                child2.valid_field_uses@ == old(child2)@.valid_field_uses,
                child1.wf(),
                child2.wf(),
            decreases instructions.len() - i,
        {
            let instruction = &self.isa.instructions[i];
            proof {
                lemma_exchanged(before1, before2, names, drawn@, i as nat);
                assert(instruction@ == instructions[i as int]);
                assert(instruction.name@ == names[i as int]);
                if drawn@[i as int] {
                    assert(child1.active_forms@.dom().contains(instruction.name@));
                    assert(child2.active_forms@.dom().contains(instruction.name@));
                }
            }
            if drawn[i] {
                exchange(&mut child1.active_forms, &mut child2.active_forms, &instruction.name);
            }
            i += 1;
        }
    }

    /// Generates children of two parents through crossover, returns two candidates
    /// Uses a uniform but granular crossover method, where there is a chance of each
    /// valid_field_uses to swap, or for the active forms of an instruction to swap
    ///
    /// The draws come from the caller: whether crossover occurs at all, for each field of the
    /// first parent in its order, and for each instruction.
    pub fn reproduce(
        &self,
        parent1: &ISACandidate,
        parent2: &ISACandidate,
        crossover: bool,
        drawn_fields: &Vec<bool>,
        drawn_forms: &Vec<bool>,
    ) -> (r: (ISACandidate, ISACandidate))
        requires
            self.wf(),
            parent1.wf(),
            parent2.wf(),
            crossover ==> {
                &&& parent1@.valid_field_uses.dom() == parent2@.valid_field_uses.dom()
                &&& drawn_fields@.len() == parent1.valid_field_uses.rows().len()
                &&& drawn_forms@.len() == self@.instructions.len()
                &&& forall|i: int|
                    0 <= i < self@.instructions.len() && drawn_forms@[i]
                        ==> parent1@.active_forms.contains_key(
                        (#[trigger] self@.instructions[i]).name,
                    ) && parent2@.active_forms.contains_key(self@.instructions[i].name)
            },
        ensures
            (r.0@, r.1@) == if crossover {
                children(
                    self@,
                    parent1@,
                    parent2@,
                    row_names(parent1.valid_field_uses.rows()),
                    drawn_fields@,
                    drawn_forms@,
                )
            } else {
                (parent1@, parent2@)
            },
            r.0.wf(),
            r.1.wf(),
    {
        let mut child1 = parent1.clone();
        let mut child2 = parent2.clone();
        if !crossover {
            return (child1, child2);
        }
        self.exchange_fields(&mut child1, &mut child2, parent1, drawn_fields);
        // Now go through the active forms and potentially swap them.
        // Every instruction is expected to have an entry in active_forms.
        self.exchange_forms(&mut child1, &mut child2, drawn_forms);
        self.restore_unrestricted_features(&mut child1);
        self.restore_unrestricted_features(&mut child2);
        (child1, child2)
    }
}

/// A row's name is in the map.
proof fn lemma_names_listed<A>(rows: Seq<(Seq<char>, A)>, k: int)
    requires
        0 <= k < rows.len(),
    ensures
        crate::collections::map_of(rows).contains_key(rows[k].0),
{
    crate::collections::lemma_map_of_absent(rows, rows[k].0);
}

} // verus!
