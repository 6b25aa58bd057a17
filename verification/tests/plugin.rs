use ecs::plugin::{plugin_start, plugin_step, PluginAction};

const A: usize = 0;
const B: usize = 1;
const C: usize = 2;
const D: usize = 3;

#[derive(Debug, PartialEq)]
enum Call {
    Build(usize),
    Finish(usize),
}

/// Plugin B adds C when built, C adds D when finished.
fn run(initial: Vec<usize>) -> Vec<Call> {
    let mut calls = Vec::new();
    let (mut state, mut action) = plugin_start(initial);
    loop {
        let mut added = Vec::new();
        match action {
            PluginAction::Build(ids) => {
                for id in ids {
                    calls.push(Call::Build(id));
                    if id == B {
                        added.push(C);
                    }
                }
            }
            PluginAction::Finish(ids) => {
                for id in ids {
                    calls.push(Call::Finish(id));
                    if id == C {
                        added.push(D);
                    }
                }
            }
            PluginAction::Done => break,
        }
        let (next, next_action) = plugin_step(state, added);
        state = next;
        action = next_action;
    }
    calls
}

#[test]
fn build() {
    let calls = run(vec![A, B]);
    assert_eq!(
        calls,
        vec![
            Call::Build(A),
            Call::Build(B),
            Call::Build(C),
            Call::Finish(C),
            Call::Build(D),
            Call::Finish(D),
            Call::Finish(A),
            Call::Finish(B),
        ]
    );
}

#[test]
fn no_plugins_is_done_at_once() {
    let (_, action) = plugin_start(vec![]);
    assert!(matches!(action, PluginAction::Done));
}
