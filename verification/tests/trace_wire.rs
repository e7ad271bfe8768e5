use parcheck::Trace;
use parcheck::trace::TraceStep;

fn step(id: usize, task: &str, op: &str) -> TraceStep {
    TraceStep { task_id: id, task_name: task.to_string(), op_name: op.to_string() }
}

fn trace_of(steps: Vec<TraceStep>) -> Trace {
    let mut t = Trace::new();
    for s in steps {
        t.push_step(s);
    }
    t
}

fn assert_same(a: &Trace, b: &Trace) {
    assert_eq!(a.len(), b.len());
    for i in 0..a.len() {
        let x = a.get(i);
        let y = b.get(i);
        assert_eq!(x.task_id, y.task_id);
        assert_eq!(x.task_name, y.task_name);
        assert_eq!(x.op_name, y.op_name);
    }
}

#[test]
fn renders_triple_form() {
    let t = trace_of(vec![step(0, "a", "op1"), step(1, "b", "op2")]);
    assert_eq!(t.render(), "0:a.op1,1:b.op2");
}

#[test]
fn renders_empty_trace_as_empty_string() {
    let t = Trace::new();
    assert_eq!(t.render(), "");
}

#[test]
fn parses_empty_string_as_empty_trace() {
    let t = Trace::parse("").expect("empty string is the empty trace");
    assert_eq!(t.len(), 0);
}

#[test]
fn parse_render_roundtrip() {
    let t = trace_of(vec![
        step(0, "execute:a", "append:1"),
        step(1, "execute:b", "append:1"),
        step(0, "execute:a", "append:2"),
    ]);
    let wire = t.render();
    assert_eq!(wire, "0:execute:a.append:1,1:execute:b.append:1,0:execute:a.append:2");
    let back = Trace::parse(&wire).expect("rendered trace parses");
    assert_same(&t, &back);
}

#[test]
fn roundtrip_keeps_large_ids_and_empty_names() {
    let t = trace_of(vec![step(usize::MAX, "", ""), step(0, "t", "op.with.dots")]);
    let back = Trace::parse(&t.render()).expect("rendered trace parses");
    assert_same(&t, &back);
}

#[test]
fn parses_single_step() {
    let t = Trace::parse("7:worker.poll").expect("single step parses");
    assert_eq!(t.len(), 1);
    assert_eq!(t.get(0).task_id, 7);
    assert_eq!(t.get(0).task_name, "worker");
    assert_eq!(t.get(0).op_name, "poll");
}

#[test]
fn rejects_malformed_wire_forms() {
    assert!(Trace::parse("abc").is_err());
    assert!(Trace::parse("5").is_err());
    assert!(Trace::parse("1:x").is_err());
    assert!(Trace::parse(",").is_err());
    assert!(Trace::parse("0:a.b,").is_err());
    assert!(Trace::parse(":a.b").is_err());
    assert!(Trace::parse("x1:a.b").is_err());
}

#[test]
fn rejects_ids_beyond_machine_range() {
    assert!(Trace::parse("99999999999999999999999999:a.b").is_err());
}

#[test]
fn from_str_matches_parse() {
    let t: Trace = "3:a.b".parse().expect("wire form parses");
    assert_eq!(t.len(), 1);
    assert_eq!(t.get(0).task_id, 3);
    assert_eq!(t.get(0).task_name, "a");
    assert_eq!(t.get(0).op_name, "b");
    assert!("nonsense".parse::<Trace>().is_err());
}
