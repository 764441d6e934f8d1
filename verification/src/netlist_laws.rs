//! What every netlist keeps: nets are listed once, and instances stand under their names.
use vstd::prelude::*;

use crate::netlist_grammar::{file_at, Event};
use crate::netlist_tokens::{tokens, TokenV};
use crate::parser::{after_event, after_events, netlist_of, with_names, ModuleV};

verus! {

/// No input, output or wire is listed twice, and each instance stands under its name.
pub open spec fn tidy(module: ModuleV) -> bool {
    &&& module.inputs.no_duplicates()
    &&& module.outputs.no_duplicates()
    &&& module.wires.no_duplicates()
    &&& forall|name: Seq<char>| #[trigger]
        module.instances.contains_key(name) ==> module.instances[name].name == name
}

proof fn lemma_with_names(names: Seq<Seq<char>>, more: Seq<Seq<char>>)
    requires
        names.no_duplicates(),
    ensures
        with_names(names, more).no_duplicates(),
        forall|name: Seq<char>|
            with_names(names, more).contains(name) == (names.contains(name) || more.contains(name)),
    decreases more.len(),
{
    if more.len() > 0 {
        let front = more.drop_last();
        lemma_with_names(names, front);
        let before = with_names(names, front);
        let after = with_names(names, more);
        assert forall|name: Seq<char>|
            after.contains(name) == (names.contains(name) || more.contains(name)) by {
            assert(more =~= front.push(more.last()));
            if !before.contains(more.last()) {
                if after.contains(name) && name != more.last() {
                    let i = choose|i: int| 0 <= i < after.len() && after[i] == name;
                    assert(before[i] == name);
                }
                if before.contains(name) {
                    let i = choose|i: int| 0 <= i < before.len() && before[i] == name;
                    assert(after[i] == name);
                }
                assert(after[before.len() as int] == more.last());
            }
            if front.contains(name) {
                let i = choose|i: int| 0 <= i < front.len() && front[i] == name;
                assert(more[i] == name);
            }
            assert(more[more.len() - 1] == more.last());
            if more.contains(name) && name != more.last() {
                let i = choose|i: int| 0 <= i < more.len() && more[i] == name;
                assert(front[i] == name);
            }
        }
    } else {
        assert(!more.contains(seq![]));
    }
}

proof fn lemma_event_tidy(
    toks: Seq<TokenV>,
    progress: crate::parser::Progress,
    event: Event,
)
    requires
        tidy(progress.module),
        after_event(toks, progress, event) is Ok,
    ensures
        tidy(after_event(toks, progress, event)->Ok_0.module),
{
    let module = progress.module;
    match event {
        Event::Port { range, name, .. } => {
            let bounds = crate::parser::range_value(toks, range)->0;
            let names = crate::parser::scalars(crate::parser::text_at(toks, name), bounds);
            lemma_with_names(module.inputs, names);
            lemma_with_names(module.outputs, names);
        },
        Event::Net { range, name, .. } => {
            let bounds = crate::parser::range_value(toks, range)->0;
            let names = crate::parser::scalars(crate::parser::text_at(toks, name), bounds);
            lemma_with_names(module.wires, names);
        },
        _ => {},
    }
}

proof fn lemma_events_tidy(toks: Seq<TokenV>, events: Seq<Event>, n: nat)
    requires
        after_events(toks, events, n) is Ok,
    ensures
        tidy(after_events(toks, events, n)->Ok_0.module),
    decreases n,
{
    if n > 0 {
        lemma_events_tidy(toks, events, (n - 1) as nat);
        let progress = after_events(toks, events, (n - 1) as nat)->Ok_0;
        lemma_event_tidy(toks, progress, events[n - 1]);
    }
}

/// A netlist lists each input, output and wire once, and each instance under its name.
pub proof fn lemma_netlist_tidy(text: Seq<char>)
    requires
        netlist_of(text) is Ok,
    ensures
        tidy(netlist_of(text)->Ok_0),
{
    let toks = tokens(text).0;
    let events = file_at(toks, 0)->Ok_0;
    lemma_events_tidy(toks, events, events.len());
}

} // verus!
