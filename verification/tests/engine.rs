//! End-to-end tests of the tick pipeline: scenarios over signals,
//! computed nodes, effects, and asynchronous tasks.

use lazy_signals::api::{LazySignals, end_effect, get_field};
use lazy_signals::signals::{Entity, SignalsError, Value};

/// Drives one full tick: subscription phase, external writes, the
/// computed wave with `derive` as the derivation dispatcher, and the
/// deferred-effects phase. Fired effects are appended to `fired_log`,
/// and each fired effect re-reads its sources, as an effect body would,
/// so it stays subscribed.
fn run_tick<F>(ls: &mut LazySignals, derive: &F, fired_log: &mut Vec<Entity>)
where
    F: Fn(Entity, Vec<Option<Value>>) -> Option<Result<Value, String>>,
{
    ls.begin_tick();
    ls.init_subscribers();
    ls.send_signals();
    ls.compute_memos(derive);
    let fired = ls.apply_deferred_effects();
    for e in fired {
        let _args = ls.materialize_args(e);
        fired_log.push(e);
    }
}

fn no_compute(_e: Entity, _args: Vec<Option<Value>>) -> Option<Result<Value, String>> {
    None
}

#[test]
fn scenario_signal_computed_effect() {
    let mut ls = LazySignals::new();
    let s0 = ls.state(Value::Bool(false));
    let c0 = ls.computed(vec![s0], Value::Str("B".to_string()));
    let e0 = ls.effect(vec![c0], vec![]);
    let mut log: Vec<Entity> = Vec::new();
    let calls = std::cell::Cell::new(0usize);
    let derive = |_e: Entity, args: Vec<Option<Value>>| {
        calls.set(calls.get() + 1);
        match args[0] {
            Some(Value::Bool(true)) => Some(Ok(Value::Str("A".to_string()))),
            Some(Value::Bool(false)) => Some(Ok(Value::Str("B".to_string()))),
            _ => None,
        }
    };

    // wiring tick: nothing staged, nothing fires
    run_tick(&mut ls, &derive, &mut log);
    assert_eq!(ls.read(Some(c0)), Ok(Value::Str("B".to_string())));
    assert_eq!(calls.get(), 0);
    assert!(log.is_empty());

    // tick 1: the signal flips, the computed follows, the effect fires once
    ls.send(Some(s0), Value::Bool(true));
    run_tick(&mut ls, &derive, &mut log);
    assert_eq!(ls.read(Some(s0)), Ok(Value::Bool(true)));
    assert_eq!(ls.read(Some(c0)), Ok(Value::Str("A".to_string())));
    assert_eq!(calls.get(), 1);
    assert_eq!(log, vec![e0]);

    // tick 2: the same value again — no change propagates
    ls.send(Some(s0), Value::Bool(true));
    run_tick(&mut ls, &derive, &mut log);
    assert_eq!(calls.get(), 1);
    assert_eq!(log, vec![e0]);

    // tick 3: a real change still reaches everyone after resubscription
    ls.send(Some(s0), Value::Bool(false));
    run_tick(&mut ls, &derive, &mut log);
    assert_eq!(ls.read(Some(c0)), Ok(Value::Str("B".to_string())));
    assert_eq!(calls.get(), 2);
    assert_eq!(log, vec![e0, e0]);
}

#[test]
fn trigger_coalesces_within_tick() {
    let mut ls = LazySignals::new();
    let t0 = ls.state(Value::Unit);
    let e0 = ls.effect(vec![], vec![t0]);
    let mut log: Vec<Entity> = Vec::new();

    ls.trigger(Some(t0), None);
    ls.trigger(Some(t0), None);
    ls.trigger(Some(t0), None);
    run_tick(&mut ls, &no_compute, &mut log);
    assert_eq!(log, vec![e0]);

    // a quiet tick does not re-fire
    run_tick(&mut ls, &no_compute, &mut log);
    assert_eq!(log, vec![e0]);

    // a later trigger fires again, once
    ls.trigger(Some(t0), None);
    run_tick(&mut ls, &no_compute, &mut log);
    assert_eq!(log, vec![e0, e0]);
}

#[test]
fn no_op_send_does_not_propagate() {
    let mut ls = LazySignals::new();
    let s0 = ls.state(Value::Int(7));
    let c0 = ls.computed(vec![s0], Value::Unit);
    let mut log: Vec<Entity> = Vec::new();
    let calls = std::cell::Cell::new(0usize);
    let derive = |_e: Entity, args: Vec<Option<Value>>| {
        calls.set(calls.get() + 1);
        args[0].clone().map(Ok)
    };
    run_tick(&mut ls, &derive, &mut log);

    // sending the current value again: no recomputation at all
    ls.send(Some(s0), Value::Int(7));
    run_tick(&mut ls, &derive, &mut log);
    assert_eq!(calls.get(), 0);
    assert_eq!(ls.read(Some(c0)), Ok(Value::Unit));

    // a different value does recompute
    ls.send(Some(s0), Value::Int(8));
    run_tick(&mut ls, &derive, &mut log);
    assert_eq!(calls.get(), 1);
    assert_eq!(ls.read(Some(c0)), Ok(Value::Int(8)));
}

#[test]
fn computed_runs_once_for_two_changed_sources() {
    let mut ls = LazySignals::new();
    let s0 = ls.state(Value::Int(1));
    let s1 = ls.state(Value::Int(2));
    let c0 = ls.computed(vec![s0, s1], Value::Int(0));
    let mut log: Vec<Entity> = Vec::new();
    let calls = std::cell::Cell::new(0usize);
    let derive = |_e: Entity, args: Vec<Option<Value>>| {
        calls.set(calls.get() + 1);
        match (&args[0], &args[1]) {
            (Some(Value::Int(a)), Some(Value::Int(b))) => Some(Ok(Value::Int(a + b))),
            _ => None,
        }
    };
    run_tick(&mut ls, &derive, &mut log);

    ls.send(Some(s0), Value::Int(10));
    ls.send(Some(s1), Value::Int(20));
    run_tick(&mut ls, &derive, &mut log);
    assert_eq!(calls.get(), 1);
    assert_eq!(ls.read(Some(c0)), Ok(Value::Int(30)));
}

#[test]
fn glitch_suppression_stops_downstream_effect() {
    let mut ls = LazySignals::new();
    let s0 = ls.state(Value::Int(1));
    // clamps to 0 or 1: many inputs map to the same derived value
    let c0 = ls.computed(vec![s0], Value::Int(1));
    let e0 = ls.effect(vec![c0], vec![]);
    let mut log: Vec<Entity> = Vec::new();
    let derive = |_e: Entity, args: Vec<Option<Value>>| match args[0] {
        Some(Value::Int(n)) => Some(Ok(Value::Int(if n > 0 { 1 } else { 0 }))),
        _ => None,
    };
    run_tick(&mut ls, &derive, &mut log);

    // 1 -> 5 clamps to 1 again: the computed runs but its value is
    // unchanged, so the effect must not fire
    ls.send(Some(s0), Value::Int(5));
    run_tick(&mut ls, &derive, &mut log);
    assert_eq!(ls.read(Some(c0)), Ok(Value::Int(1)));
    assert!(log.is_empty());

    // 5 -> 0 clamps to 0: a real change, the effect fires
    ls.send(Some(s0), Value::Int(0));
    run_tick(&mut ls, &derive, &mut log);
    assert_eq!(ls.read(Some(c0)), Ok(Value::Int(0)));
    assert_eq!(log, vec![e0]);
}

#[test]
fn task_not_spawned_twice_while_running() {
    let mut ls = LazySignals::new();
    let tr = ls.state(Value::Unit);
    let t0 = ls.task(vec![], vec![tr]);
    let mut log: Vec<Entity> = Vec::new();

    ls.trigger(Some(tr), None);
    run_tick(&mut ls, &no_compute, &mut log);
    assert_eq!(log, vec![t0]);

    // triggered again while the execution is still outstanding: coalesced
    ls.trigger(Some(tr), None);
    run_tick(&mut ls, &no_compute, &mut log);
    assert_eq!(log, vec![t0]);

    // the host reaps the execution; a later trigger spawns exactly one
    // new execution
    ls.begin_tick();
    ls.finish_task(t0);
    ls.trigger(Some(tr), None);
    ls.init_subscribers();
    ls.send_signals();
    let fired = ls.apply_deferred_effects();
    assert_eq!(fired, vec![t0]);
}

#[test]
fn task_batch_feeds_next_tick() {
    let mut ls = LazySignals::new();
    let tr = ls.state(Value::Unit);
    let out = ls.state(Value::Int(0));
    let t0 = ls.task(vec![], vec![tr]);
    let mut log: Vec<Entity> = Vec::new();

    ls.trigger(Some(tr), None);
    run_tick(&mut ls, &no_compute, &mut log);
    assert_eq!(log, vec![t0]);

    // the background execution completes and hands back its staged
    // writes; the next tick applies them
    ls.begin_tick();
    ls.finish_task(t0);
    ls.send(Some(out), Value::Int(42));
    ls.init_subscribers();
    ls.send_signals();
    let _ = ls.apply_deferred_effects();
    assert_eq!(ls.read(Some(out)), Ok(Value::Int(42)));
}

#[test]
fn subscription_takes_effect_next_tick() {
    let mut ls = LazySignals::new();
    let s0 = ls.state(Value::Int(0));
    // an effect with no declared lists: it joins by reading
    let e0 = ls.effect(vec![], vec![]);
    let mut log: Vec<Entity> = Vec::new();
    run_tick(&mut ls, &no_compute, &mut log);

    // tick 1: e0 subscribes by reading during the tick in which s0
    // changes; the subscription is staged, so e0 is not notified
    ls.send(Some(s0), Value::Int(1));
    ls.begin_tick();
    ls.init_subscribers();
    assert_eq!(ls.value(Some(s0), e0), Ok(Value::Int(0)));
    ls.send_signals();
    let fired = ls.apply_deferred_effects();
    assert!(fired.is_empty());

    // tick 2: the staged subscription commits; the next change notifies
    ls.send(Some(s0), Value::Int(2));
    ls.begin_tick();
    ls.init_subscribers();
    ls.send_signals();
    let fired = ls.apply_deferred_effects();
    assert_eq!(fired, vec![e0]);
}

#[test]
fn derivation_error_is_stored_and_recorded() {
    let mut ls = LazySignals::new();
    let s0 = ls.state(Value::Int(1));
    let c0 = ls.computed(vec![s0], Value::Unit);
    let e0 = ls.effect(vec![c0], vec![]);
    let mut log: Vec<Entity> = Vec::new();
    let derive = |_e: Entity, args: Vec<Option<Value>>| match args[0] {
        Some(Value::Int(0)) => Some(Err("division by zero".to_string())),
        Some(Value::Int(n)) => Some(Ok(Value::Int(100 / n))),
        _ => None,
    };
    run_tick(&mut ls, &derive, &mut log);

    ls.send(Some(s0), Value::Int(0));
    run_tick(&mut ls, &derive, &mut log);
    // the error is stored like any other value and propagates
    assert_eq!(
        ls.read(Some(c0)),
        Ok(Value::Error("division by zero".to_string()))
    );
    assert_eq!(log, vec![e0]);
    assert_eq!(ls.res.errors.len(), 1);
    assert_eq!(ls.res.errors[0].entity, c0);
    assert_eq!(ls.res.errors[0].message, "division by zero");
}

#[test]
fn skip_result_leaves_value_unchanged() {
    let mut ls = LazySignals::new();
    let s0 = ls.state(Value::Int(1));
    let c0 = ls.computed(vec![s0], Value::Int(99));
    let mut log: Vec<Entity> = Vec::new();
    let derive = |_e: Entity, _args: Vec<Option<Value>>| None;
    run_tick(&mut ls, &derive, &mut log);

    ls.send(Some(s0), Value::Int(2));
    run_tick(&mut ls, &derive, &mut log);
    assert_eq!(ls.read(Some(c0)), Ok(Value::Int(99)));
}

#[test]
fn chained_computeds_propagate_in_one_tick() {
    let mut ls = LazySignals::new();
    let s0 = ls.state(Value::Int(1));
    let c0 = ls.computed(vec![s0], Value::Int(2));
    let c1 = ls.computed(vec![c0], Value::Int(4));
    let mut log: Vec<Entity> = Vec::new();
    let c0_id = c0;
    let derive = move |e: Entity, args: Vec<Option<Value>>| match args[0] {
        Some(Value::Int(n)) => {
            if e == c0_id {
                Some(Ok(Value::Int(n * 2)))
            } else {
                Some(Ok(Value::Int(n + 1)))
            }
        }
        _ => None,
    };
    run_tick(&mut ls, &derive, &mut log);

    ls.send(Some(s0), Value::Int(10));
    run_tick(&mut ls, &derive, &mut log);
    assert_eq!(ls.read(Some(c0)), Ok(Value::Int(20)));
    assert_eq!(ls.read(Some(c1)), Ok(Value::Int(21)));
}

#[test]
fn read_errors() {
    let ls = LazySignals::new();
    assert_eq!(ls.read(None), Err(SignalsError::NoSignalError));
    let dangling = Entity { id: 17 };
    assert_eq!(
        ls.read(Some(dangling)),
        Err(SignalsError::ReadError(dangling))
    );
}

#[test]
fn value_read_errors() {
    let mut ls = LazySignals::new();
    let caller = Entity { id: 0 };
    assert_eq!(ls.value(None, caller), Err(SignalsError::NoSignalError));
    let dangling = Entity { id: 3 };
    assert_eq!(
        ls.value(Some(dangling), caller),
        Err(SignalsError::ReadError(dangling))
    );
}

#[test]
fn error_messages() {
    assert_eq!(
        SignalsError::ReadError(Entity { id: 1 }).message(),
        "error reading signal"
    );
    assert_eq!(SignalsError::NoSignalError.message(), "signal does not exist");
}

#[test]
fn dangling_source_materializes_absent() {
    let mut ls = LazySignals::new();
    let s0 = ls.state(Value::Int(5));
    let ghost_source = Entity { id: 40 };
    let c0 = ls.computed(vec![s0, ghost_source], Value::Unit);
    let mut log: Vec<Entity> = Vec::new();
    let seen: std::cell::RefCell<Vec<Option<Value>>> = std::cell::RefCell::new(Vec::new());
    let derive = |_e: Entity, args: Vec<Option<Value>>| {
        *seen.borrow_mut() = args.clone();
        end_effect()
    };
    run_tick(&mut ls, &derive, &mut log);

    ls.send(Some(s0), Value::Int(6));
    run_tick(&mut ls, &derive, &mut log);
    assert_eq!(*seen.borrow(), vec![Some(Value::Int(6)), None]);
    assert_eq!(ls.read(Some(c0)), Ok(Value::Unit));
}

#[test]
fn get_field_reads_positions() {
    let args = vec![Some(Value::Int(3)), None];
    assert_eq!(get_field(&args, 0), Some(&Value::Int(3)));
    assert_eq!(get_field(&args, 1), None);
    assert_eq!(get_field(&args, 2), None);
}

#[test]
fn send_to_absent_handle_is_ignored() {
    let mut ls = LazySignals::new();
    let s0 = ls.state(Value::Int(1));
    let mut log: Vec<Entity> = Vec::new();
    ls.send(None, Value::Int(9));
    ls.send(Some(Entity { id: 55 }), Value::Int(9));
    ls.trigger(None, None);
    run_tick(&mut ls, &no_compute, &mut log);
    assert_eq!(ls.read(Some(s0)), Ok(Value::Int(1)));
    assert!(log.is_empty());
}

#[test]
fn value_bearing_trigger_fires_even_unchanged() {
    let mut ls = LazySignals::new();
    let s0 = ls.state(Value::Int(1));
    let e0 = ls.effect(vec![s0], vec![]);
    let mut log: Vec<Entity> = Vec::new();
    run_tick(&mut ls, &no_compute, &mut log);

    // an explicit trigger with the unchanged value still notifies the
    // cell's subscribers
    ls.trigger(Some(s0), Some(Value::Int(1)));
    run_tick(&mut ls, &no_compute, &mut log);
    assert_eq!(log, vec![e0]);
}

#[test]
fn explicit_subscribe_joins_live_set() {
    let mut ls = LazySignals::new();
    let s0 = ls.state(Value::Int(0));
    let e0 = ls.effect(vec![], vec![]);
    let mut log: Vec<Entity> = Vec::new();
    run_tick(&mut ls, &no_compute, &mut log);

    // wiring by hand commits at once, so the very next change notifies
    ls.subscribe(e0, s0);
    ls.send(Some(s0), Value::Int(1));
    run_tick(&mut ls, &no_compute, &mut log);
    assert_eq!(log, vec![e0]);
}
