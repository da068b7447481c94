use decert::codewriter::{CodeTask, CodeWriter, Delay, FunctionCall};

fn call(name: &str) -> CodeTask {
    CodeTask::FunctionCall(FunctionCall { fn_identifier: name.to_string(), cycles: 1, args: vec![] })
}

fn delays(w: &CodeWriter) -> Vec<u64> {
    w.tasks
        .iter()
        .filter_map(|t| match t {
            CodeTask::Delay(Delay { call_time_ms }) => Some(*call_time_ms),
            _ => None,
        })
        .collect()
}

#[test]
fn repeated_idle_rounds_make_one_gap() {
    let mut w = CodeWriter::new();
    w.start_delay(2);
    w.start_delay(5);
    w.start_delay(7);
    w.append(call("t"), 10);
    assert_eq!(delays(&w), vec![8]);
    assert_eq!(w.tasks.len(), 2);
    assert!(w.delayed_at.is_none());
}

#[test]
fn no_gap_without_idle_time() {
    let mut w = CodeWriter::new();
    w.append(call("a"), 0);
    w.start_delay(4);
    w.append(call("b"), 4);
    assert!(delays(&w).is_empty());
    assert_eq!(w.tasks.len(), 2);
}
