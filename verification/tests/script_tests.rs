use vibecheat::script::{default_script, script_read_i32, script_write_bytes, LuaEngineCommand, ScriptAction, ScriptEngine};

#[test]
fn engine_runs_scripts_against_last_target() {
    let mut e = ScriptEngine::new();
    assert_eq!(e.target_pid, 0);
    match e.handle(LuaEngineCommand::ExecuteScript("print(1)".to_string())) {
        ScriptAction::Run { script, pid } => {
            assert_eq!(script, "print(1)");
            assert_eq!(pid, 0);
        }
        ScriptAction::Idle => panic!("expected a run"),
    }
    assert!(matches!(e.handle(LuaEngineCommand::SetPid(42)), ScriptAction::Idle));
    assert!(matches!(e.handle(LuaEngineCommand::ExecuteScript("x".to_string())), ScriptAction::Run { pid: 42, .. }));
}

#[test]
fn script_memory_values_are_native_i32() {
    let b = (-123456i32).to_ne_bytes();
    assert_eq!(script_read_i32(Some(&b)), Some(-123456));
    assert_eq!(script_read_i32(None), None);
    assert_eq!(script_write_bytes(-2), (-2i32).to_ne_bytes().to_vec());
    assert_eq!(script_write_bytes(i32::MAX), i32::MAX.to_ne_bytes().to_vec());
    assert!(default_script().contains("vibe.set_speed(2.0)"));
}
