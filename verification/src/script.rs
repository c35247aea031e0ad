use vstd::prelude::*;
use crate::value::{ByteOrder, signed_value, encode_int, decode_signed, encode_int_bytes, native_byte_order, machine_order, lemma_pow256_values,
    lemma_unsigned_value_bound};

verus! {

/// A request to the script engine.
#[derive(Debug)]
pub enum LuaEngineCommand {
    /// Run a script against the current target.
    ExecuteScript(String),
    /// Make this process the target of the scripts that follow.
    SetPid(i32),
}

/// What the script engine keeps between requests: the process its scripts act on.
pub struct ScriptEngine {
    pub target_pid: i32,
}

/// What the engine does for a request.
#[derive(Debug)]
pub enum ScriptAction {
    /// Run `script`, its memory functions acting on process `pid`.
    Run { script: String, pid: i32 },
    /// Nothing to run.
    Idle,
}

impl ScriptEngine {
    /// An engine with no target yet (`0`).
    pub fn new() -> (r: Self)
        ensures
            r.target_pid == 0,
    {
        ScriptEngine { target_pid: 0 }
    }

    /// Handles one request: a new target is remembered; a script is run
    /// against the target remembered last.
    pub fn handle(&mut self, cmd: LuaEngineCommand) -> (r: ScriptAction)
        ensures
            match cmd {
                LuaEngineCommand::SetPid(p) => final(self).target_pid == p && r is Idle,
                LuaEngineCommand::ExecuteScript(s) => final(self).target_pid == old(self).target_pid
                    && r == (ScriptAction::Run { script: s, pid: old(self).target_pid }),
            },
    {
        match cmd {
            LuaEngineCommand::SetPid(p) => {
                self.target_pid = p;
                ScriptAction::Idle
            },
            LuaEngineCommand::ExecuteScript(script) => ScriptAction::Run { script, pid: self.target_pid },
        }
    }
}

/// What a script's `read_i32` gives for the four bytes read in the given
/// byte order, or nothing when the read failed.
pub fn script_read_i32_in_order(order: ByteOrder, read: Option<&[u8]>) -> (r: Option<i32>)
    requires
        read matches Some(b) ==> b@.len() == 4,
    ensures
        match read {
            Some(b) => r == Some(signed_value(b@, order) as i32) && -0x8000_0000 <= signed_value(b@, order)
                < 0x8000_0000,
            None => r is None,
        },
{
    match read {
        Some(b) => {
            let v = decode_signed(b, order);
            proof {
                lemma_unsigned_value_bound(b@, order);
                lemma_pow256_values();
            }
            Some(v as i32)
        },
        None => None,
    }
}

/// What a script's `read_i32` gives for the bytes read natively.
pub fn script_read_i32(read: Option<&[u8]>) -> (r: Option<i32>)
    requires
        read matches Some(b) ==> b@.len() == 4,
    ensures
        read is None ==> r is None,
        read matches Some(b) ==> exists|order: ByteOrder| r == Some(#[trigger] signed_value(b@, order) as i32),
        read matches Some(b) ==> r == Some(signed_value(b@, machine_order()) as i32),
{
    let order = native_byte_order();
    script_read_i32_in_order(order, read)
}

/// The bytes a script's `write_i32` writes for a value, in the given byte order.
pub fn script_write_bytes_in_order(order: ByteOrder, v: i32) -> (r: Vec<u8>)
    ensures
        r@ == encode_int(v as int, 4, order),
{
    proof {
        lemma_pow256_values();
    }
    encode_int_bytes(v as i64, 4, order)
}

/// The bytes a script's `write_i32` writes for a value, natively.
pub fn script_write_bytes(v: i32) -> (r: Vec<u8>)
    ensures
        exists|order: ByteOrder| r@ == #[trigger] encode_int(v as int, 4, order),
        r@ == encode_int(v as int, 4, machine_order()),
{
    let order = native_byte_order();
    script_write_bytes_in_order(order, v)
}

/// The script a new session starts with.
pub fn default_script() -> (r: &'static str)
    ensures
        r@ == "-- Example VibeCheat Lua Script\n-- Press Hotkey to execute\n\nvibe.set_speed(2.0)\nprint(\"Speedhack activated!\")\n"@,
{
    "-- Example VibeCheat Lua Script\n-- Press Hotkey to execute\n\nvibe.set_speed(2.0)\nprint(\"Speedhack activated!\")\n"
}

} // verus!
