//! The engine: owns the key-value store, evaluates one command at a time,
//! and produces one reply object. Its whole behaviour, commands and error
//! replies alike, is stated by the specification-level step function
//! [`spec_step`] over the store's model; time enters only as the
//! `now_ms` argument, a reading of a monotonic millisecond clock that the
//! caller supplies, so every outcome depends on time deltas alone.

use vstd::prelude::*;

use crate::object::{obj_model, seq_model, bytes_eq, obj_clone, obj_eq, ObjModel, Object,
    ObjectArray};
use crate::resp::{all_digits, digits_val, spec_is_digit, is_digit, wire_wf};

verus! {

/// The fixed texts the engine speaks: command names and reply messages.
#[derive(Clone, Copy, Debug, PartialEq, Eq)]
pub enum Msg {
    /// The command name `GET`. (`GET`)
    CmdGet,
    /// The command name `PING`. (`PING`)
    CmdPing,
    /// The command name `ECHO`. (`ECHO`)
    CmdEcho,
    /// The command name `RPUSH`. (`RPUSH`)
    CmdRpush,
    /// The command name `LPUSH`. (`LPUSH`)
    CmdLpush,
    /// The command name `SET`. (`SET`)
    CmdSet,
    /// The command name `LRANGE`. (`LRANGE`)
    CmdLrange,
    /// The command name `LLEN`. (`LLEN`)
    CmdLlen,
    /// The command name `LPOP`. (`LPOP`)
    CmdLpop,
    /// The `SET` option `PX`. (`PX`)
    CmdPx,
    /// The reply to `PING`. (`PONG`)
    PongReply,
    /// The reply to a successful `SET`. (`OK`)
    OkReply,
    /// A command was not a non-empty array. (`expected an non-empty array`)
    ExpectedArray,
    /// A command's first element was not a non-null bulk string. (`expected first element to be a non-null bulk string`)
    ExpectedBulkName,
    /// The command name is not in the table. (`unknown command`)
    UnknownCommand,
    /// `GET` was given no key. (`GET requires a key argument`)
    GetKey,
    /// `GET` was given extra arguments. (`GET requires exactly one argument`)
    GetOne,
    /// `ECHO` was given no argument. (`ECHO requires an argument`)
    EchoArg,
    /// `ECHO` was given extra arguments. (`ECHO requires exactly one argument`)
    EchoOne,
    /// `SET` was given no key. (`SET requires a key argument`)
    SetKey,
    /// `SET` was given no value. (`SET requires a value argument`)
    SetValue,
    /// `SET` was given an option other than `PX`. (`SET supports only the PX option`)
    SetOption,
    /// `SET` was given arguments beyond the `PX` pair. (`SET requires exactly two or four arguments`)
    SetArity,
    /// The `PX` option came without a duration. (`PX requires a duration`)
    PxDuration,
    /// The `PX` duration was not a number of milliseconds. (`Invalid PX duration`)
    InvalidPx,
    /// `RPUSH` was given no key. (`RPUSH requires a key argument`)
    RpushKey,
    /// `RPUSH` was given no element. (`RPUSH requires an element argument`)
    RpushElem,
    /// `LPUSH` was given no key. (`LPUSH requires a key argument`)
    LpushKey,
    /// `LPUSH` was given no element. (`LPUSH requires an element argument`)
    LpushElem,
    /// A list command found a value of another kind at the key. (`object at key is not an array`)
    NotArray,
    /// `LRANGE` was given no key. (`LRANGE requires a key argument`)
    LrangeKey,
    /// `LRANGE` was given no usable start index. (`LRANGE requires a start index`)
    LrangeStart,
    /// `LRANGE` was given no usable stop index. (`LRANGE requires a stop index`)
    LrangeStop,
    /// The `LRANGE` start index was not an integer. (`couldn't parse start as an integer`)
    LrangeStartParse,
    /// The `LRANGE` stop index was not an integer. (`couldn't parse stop as an integer`)
    LrangeStopParse,
    /// A list-length or pop command was given no key. (`LLEN requires a key argument`)
    LlenKey,
}

/// The bytes of a fixed text.
pub open spec fn spec_msg(m: Msg) -> Seq<u8> {
    match m {
        Msg::CmdGet => seq![71u8, 69u8, 84u8],
        Msg::CmdPing => seq![80u8, 73u8, 78u8, 71u8],
        Msg::CmdEcho => seq![69u8, 67u8, 72u8, 79u8],
        Msg::CmdRpush => seq![82u8, 80u8, 85u8, 83u8, 72u8],
        Msg::CmdLpush => seq![76u8, 80u8, 85u8, 83u8, 72u8],
        Msg::CmdSet => seq![83u8, 69u8, 84u8],
        Msg::CmdLrange => seq![76u8, 82u8, 65u8, 78u8, 71u8, 69u8],
        Msg::CmdLlen => seq![76u8, 76u8, 69u8, 78u8],
        Msg::CmdLpop => seq![76u8, 80u8, 79u8, 80u8],
        Msg::CmdPx => seq![80u8, 88u8],
        Msg::PongReply => seq![80u8, 79u8, 78u8, 71u8],
        Msg::OkReply => seq![79u8, 75u8],
        Msg::ExpectedArray => seq![101u8, 120u8, 112u8, 101u8, 99u8, 116u8, 101u8, 100u8, 32u8, 97u8, 110u8, 32u8, 110u8, 111u8, 110u8, 45u8, 101u8, 109u8, 112u8, 116u8, 121u8, 32u8, 97u8, 114u8, 114u8, 97u8, 121u8],
        Msg::ExpectedBulkName => seq![101u8, 120u8, 112u8, 101u8, 99u8, 116u8, 101u8, 100u8, 32u8, 102u8, 105u8, 114u8, 115u8, 116u8, 32u8, 101u8, 108u8, 101u8, 109u8, 101u8, 110u8, 116u8, 32u8, 116u8, 111u8, 32u8, 98u8, 101u8, 32u8, 97u8, 32u8, 110u8, 111u8, 110u8, 45u8, 110u8, 117u8, 108u8, 108u8, 32u8, 98u8, 117u8, 108u8, 107u8, 32u8, 115u8, 116u8, 114u8, 105u8, 110u8, 103u8],
        Msg::UnknownCommand => seq![117u8, 110u8, 107u8, 110u8, 111u8, 119u8, 110u8, 32u8, 99u8, 111u8, 109u8, 109u8, 97u8, 110u8, 100u8],
        Msg::GetKey => seq![71u8, 69u8, 84u8, 32u8, 114u8, 101u8, 113u8, 117u8, 105u8, 114u8, 101u8, 115u8, 32u8, 97u8, 32u8, 107u8, 101u8, 121u8, 32u8, 97u8, 114u8, 103u8, 117u8, 109u8, 101u8, 110u8, 116u8],
        Msg::GetOne => seq![71u8, 69u8, 84u8, 32u8, 114u8, 101u8, 113u8, 117u8, 105u8, 114u8, 101u8, 115u8, 32u8, 101u8, 120u8, 97u8, 99u8, 116u8, 108u8, 121u8, 32u8, 111u8, 110u8, 101u8, 32u8, 97u8, 114u8, 103u8, 117u8, 109u8, 101u8, 110u8, 116u8],
        Msg::EchoArg => seq![69u8, 67u8, 72u8, 79u8, 32u8, 114u8, 101u8, 113u8, 117u8, 105u8, 114u8, 101u8, 115u8, 32u8, 97u8, 110u8, 32u8, 97u8, 114u8, 103u8, 117u8, 109u8, 101u8, 110u8, 116u8],
        Msg::EchoOne => seq![69u8, 67u8, 72u8, 79u8, 32u8, 114u8, 101u8, 113u8, 117u8, 105u8, 114u8, 101u8, 115u8, 32u8, 101u8, 120u8, 97u8, 99u8, 116u8, 108u8, 121u8, 32u8, 111u8, 110u8, 101u8, 32u8, 97u8, 114u8, 103u8, 117u8, 109u8, 101u8, 110u8, 116u8],
        Msg::SetKey => seq![83u8, 69u8, 84u8, 32u8, 114u8, 101u8, 113u8, 117u8, 105u8, 114u8, 101u8, 115u8, 32u8, 97u8, 32u8, 107u8, 101u8, 121u8, 32u8, 97u8, 114u8, 103u8, 117u8, 109u8, 101u8, 110u8, 116u8],
        Msg::SetValue => seq![83u8, 69u8, 84u8, 32u8, 114u8, 101u8, 113u8, 117u8, 105u8, 114u8, 101u8, 115u8, 32u8, 97u8, 32u8, 118u8, 97u8, 108u8, 117u8, 101u8, 32u8, 97u8, 114u8, 103u8, 117u8, 109u8, 101u8, 110u8, 116u8],
        Msg::SetOption => seq![83u8, 69u8, 84u8, 32u8, 115u8, 117u8, 112u8, 112u8, 111u8, 114u8, 116u8, 115u8, 32u8, 111u8, 110u8, 108u8, 121u8, 32u8, 116u8, 104u8, 101u8, 32u8, 80u8, 88u8, 32u8, 111u8, 112u8, 116u8, 105u8, 111u8, 110u8],
        Msg::SetArity => seq![83u8, 69u8, 84u8, 32u8, 114u8, 101u8, 113u8, 117u8, 105u8, 114u8, 101u8, 115u8, 32u8, 101u8, 120u8, 97u8, 99u8, 116u8, 108u8, 121u8, 32u8, 116u8, 119u8, 111u8, 32u8, 111u8, 114u8, 32u8, 102u8, 111u8, 117u8, 114u8, 32u8, 97u8, 114u8, 103u8, 117u8, 109u8, 101u8, 110u8, 116u8, 115u8],
        Msg::PxDuration => seq![80u8, 88u8, 32u8, 114u8, 101u8, 113u8, 117u8, 105u8, 114u8, 101u8, 115u8, 32u8, 97u8, 32u8, 100u8, 117u8, 114u8, 97u8, 116u8, 105u8, 111u8, 110u8],
        Msg::InvalidPx => seq![73u8, 110u8, 118u8, 97u8, 108u8, 105u8, 100u8, 32u8, 80u8, 88u8, 32u8, 100u8, 117u8, 114u8, 97u8, 116u8, 105u8, 111u8, 110u8],
        Msg::RpushKey => seq![82u8, 80u8, 85u8, 83u8, 72u8, 32u8, 114u8, 101u8, 113u8, 117u8, 105u8, 114u8, 101u8, 115u8, 32u8, 97u8, 32u8, 107u8, 101u8, 121u8, 32u8, 97u8, 114u8, 103u8, 117u8, 109u8, 101u8, 110u8, 116u8],
        Msg::RpushElem => seq![82u8, 80u8, 85u8, 83u8, 72u8, 32u8, 114u8, 101u8, 113u8, 117u8, 105u8, 114u8, 101u8, 115u8, 32u8, 97u8, 110u8, 32u8, 101u8, 108u8, 101u8, 109u8, 101u8, 110u8, 116u8, 32u8, 97u8, 114u8, 103u8, 117u8, 109u8, 101u8, 110u8, 116u8],
        Msg::LpushKey => seq![76u8, 80u8, 85u8, 83u8, 72u8, 32u8, 114u8, 101u8, 113u8, 117u8, 105u8, 114u8, 101u8, 115u8, 32u8, 97u8, 32u8, 107u8, 101u8, 121u8, 32u8, 97u8, 114u8, 103u8, 117u8, 109u8, 101u8, 110u8, 116u8],
        Msg::LpushElem => seq![76u8, 80u8, 85u8, 83u8, 72u8, 32u8, 114u8, 101u8, 113u8, 117u8, 105u8, 114u8, 101u8, 115u8, 32u8, 97u8, 110u8, 32u8, 101u8, 108u8, 101u8, 109u8, 101u8, 110u8, 116u8, 32u8, 97u8, 114u8, 103u8, 117u8, 109u8, 101u8, 110u8, 116u8],
        Msg::NotArray => seq![111u8, 98u8, 106u8, 101u8, 99u8, 116u8, 32u8, 97u8, 116u8, 32u8, 107u8, 101u8, 121u8, 32u8, 105u8, 115u8, 32u8, 110u8, 111u8, 116u8, 32u8, 97u8, 110u8, 32u8, 97u8, 114u8, 114u8, 97u8, 121u8],
        Msg::LrangeKey => seq![76u8, 82u8, 65u8, 78u8, 71u8, 69u8, 32u8, 114u8, 101u8, 113u8, 117u8, 105u8, 114u8, 101u8, 115u8, 32u8, 97u8, 32u8, 107u8, 101u8, 121u8, 32u8, 97u8, 114u8, 103u8, 117u8, 109u8, 101u8, 110u8, 116u8],
        Msg::LrangeStart => seq![76u8, 82u8, 65u8, 78u8, 71u8, 69u8, 32u8, 114u8, 101u8, 113u8, 117u8, 105u8, 114u8, 101u8, 115u8, 32u8, 97u8, 32u8, 115u8, 116u8, 97u8, 114u8, 116u8, 32u8, 105u8, 110u8, 100u8, 101u8, 120u8],
        Msg::LrangeStop => seq![76u8, 82u8, 65u8, 78u8, 71u8, 69u8, 32u8, 114u8, 101u8, 113u8, 117u8, 105u8, 114u8, 101u8, 115u8, 32u8, 97u8, 32u8, 115u8, 116u8, 111u8, 112u8, 32u8, 105u8, 110u8, 100u8, 101u8, 120u8],
        Msg::LrangeStartParse => seq![99u8, 111u8, 117u8, 108u8, 100u8, 110u8, 39u8, 116u8, 32u8, 112u8, 97u8, 114u8, 115u8, 101u8, 32u8, 115u8, 116u8, 97u8, 114u8, 116u8, 32u8, 97u8, 115u8, 32u8, 97u8, 110u8, 32u8, 105u8, 110u8, 116u8, 101u8, 103u8, 101u8, 114u8],
        Msg::LrangeStopParse => seq![99u8, 111u8, 117u8, 108u8, 100u8, 110u8, 39u8, 116u8, 32u8, 112u8, 97u8, 114u8, 115u8, 101u8, 32u8, 115u8, 116u8, 111u8, 112u8, 32u8, 97u8, 115u8, 32u8, 97u8, 110u8, 32u8, 105u8, 110u8, 116u8, 101u8, 103u8, 101u8, 114u8],
        Msg::LlenKey => seq![76u8, 76u8, 69u8, 78u8, 32u8, 114u8, 101u8, 113u8, 117u8, 105u8, 114u8, 101u8, 115u8, 32u8, 97u8, 32u8, 107u8, 101u8, 121u8, 32u8, 97u8, 114u8, 103u8, 117u8, 109u8, 101u8, 110u8, 116u8],
    }
}

/// Returns the bytes of a fixed text.
pub fn msg_bytes(m: Msg) -> (r: Vec<u8>)
    ensures
        r@ == spec_msg(m),
{
    let r: Vec<u8> = match m {
        Msg::CmdGet => vec![71, 69, 84],
        Msg::CmdPing => vec![80, 73, 78, 71],
        Msg::CmdEcho => vec![69, 67, 72, 79],
        Msg::CmdRpush => vec![82, 80, 85, 83, 72],
        Msg::CmdLpush => vec![76, 80, 85, 83, 72],
        Msg::CmdSet => vec![83, 69, 84],
        Msg::CmdLrange => vec![76, 82, 65, 78, 71, 69],
        Msg::CmdLlen => vec![76, 76, 69, 78],
        Msg::CmdLpop => vec![76, 80, 79, 80],
        Msg::CmdPx => vec![80, 88],
        Msg::PongReply => vec![80, 79, 78, 71],
        Msg::OkReply => vec![79, 75],
        Msg::ExpectedArray => vec![101, 120, 112, 101, 99, 116, 101, 100, 32, 97, 110, 32, 110, 111, 110, 45, 101, 109, 112, 116, 121, 32, 97, 114, 114, 97, 121],
        Msg::ExpectedBulkName => vec![101, 120, 112, 101, 99, 116, 101, 100, 32, 102, 105, 114, 115, 116, 32, 101, 108, 101, 109, 101, 110, 116, 32, 116, 111, 32, 98, 101, 32, 97, 32, 110, 111, 110, 45, 110, 117, 108, 108, 32, 98, 117, 108, 107, 32, 115, 116, 114, 105, 110, 103],
        Msg::UnknownCommand => vec![117, 110, 107, 110, 111, 119, 110, 32, 99, 111, 109, 109, 97, 110, 100],
        Msg::GetKey => vec![71, 69, 84, 32, 114, 101, 113, 117, 105, 114, 101, 115, 32, 97, 32, 107, 101, 121, 32, 97, 114, 103, 117, 109, 101, 110, 116],
        Msg::GetOne => vec![71, 69, 84, 32, 114, 101, 113, 117, 105, 114, 101, 115, 32, 101, 120, 97, 99, 116, 108, 121, 32, 111, 110, 101, 32, 97, 114, 103, 117, 109, 101, 110, 116],
        Msg::EchoArg => vec![69, 67, 72, 79, 32, 114, 101, 113, 117, 105, 114, 101, 115, 32, 97, 110, 32, 97, 114, 103, 117, 109, 101, 110, 116],
        Msg::EchoOne => vec![69, 67, 72, 79, 32, 114, 101, 113, 117, 105, 114, 101, 115, 32, 101, 120, 97, 99, 116, 108, 121, 32, 111, 110, 101, 32, 97, 114, 103, 117, 109, 101, 110, 116],
        Msg::SetKey => vec![83, 69, 84, 32, 114, 101, 113, 117, 105, 114, 101, 115, 32, 97, 32, 107, 101, 121, 32, 97, 114, 103, 117, 109, 101, 110, 116],
        Msg::SetValue => vec![83, 69, 84, 32, 114, 101, 113, 117, 105, 114, 101, 115, 32, 97, 32, 118, 97, 108, 117, 101, 32, 97, 114, 103, 117, 109, 101, 110, 116],
        Msg::SetOption => vec![83, 69, 84, 32, 115, 117, 112, 112, 111, 114, 116, 115, 32, 111, 110, 108, 121, 32, 116, 104, 101, 32, 80, 88, 32, 111, 112, 116, 105, 111, 110],
        Msg::SetArity => vec![83, 69, 84, 32, 114, 101, 113, 117, 105, 114, 101, 115, 32, 101, 120, 97, 99, 116, 108, 121, 32, 116, 119, 111, 32, 111, 114, 32, 102, 111, 117, 114, 32, 97, 114, 103, 117, 109, 101, 110, 116, 115],
        Msg::PxDuration => vec![80, 88, 32, 114, 101, 113, 117, 105, 114, 101, 115, 32, 97, 32, 100, 117, 114, 97, 116, 105, 111, 110],
        Msg::InvalidPx => vec![73, 110, 118, 97, 108, 105, 100, 32, 80, 88, 32, 100, 117, 114, 97, 116, 105, 111, 110],
        Msg::RpushKey => vec![82, 80, 85, 83, 72, 32, 114, 101, 113, 117, 105, 114, 101, 115, 32, 97, 32, 107, 101, 121, 32, 97, 114, 103, 117, 109, 101, 110, 116],
        Msg::RpushElem => vec![82, 80, 85, 83, 72, 32, 114, 101, 113, 117, 105, 114, 101, 115, 32, 97, 110, 32, 101, 108, 101, 109, 101, 110, 116, 32, 97, 114, 103, 117, 109, 101, 110, 116],
        Msg::LpushKey => vec![76, 80, 85, 83, 72, 32, 114, 101, 113, 117, 105, 114, 101, 115, 32, 97, 32, 107, 101, 121, 32, 97, 114, 103, 117, 109, 101, 110, 116],
        Msg::LpushElem => vec![76, 80, 85, 83, 72, 32, 114, 101, 113, 117, 105, 114, 101, 115, 32, 97, 110, 32, 101, 108, 101, 109, 101, 110, 116, 32, 97, 114, 103, 117, 109, 101, 110, 116],
        Msg::NotArray => vec![111, 98, 106, 101, 99, 116, 32, 97, 116, 32, 107, 101, 121, 32, 105, 115, 32, 110, 111, 116, 32, 97, 110, 32, 97, 114, 114, 97, 121],
        Msg::LrangeKey => vec![76, 82, 65, 78, 71, 69, 32, 114, 101, 113, 117, 105, 114, 101, 115, 32, 97, 32, 107, 101, 121, 32, 97, 114, 103, 117, 109, 101, 110, 116],
        Msg::LrangeStart => vec![76, 82, 65, 78, 71, 69, 32, 114, 101, 113, 117, 105, 114, 101, 115, 32, 97, 32, 115, 116, 97, 114, 116, 32, 105, 110, 100, 101, 120],
        Msg::LrangeStop => vec![76, 82, 65, 78, 71, 69, 32, 114, 101, 113, 117, 105, 114, 101, 115, 32, 97, 32, 115, 116, 111, 112, 32, 105, 110, 100, 101, 120],
        Msg::LrangeStartParse => vec![99, 111, 117, 108, 100, 110, 39, 116, 32, 112, 97, 114, 115, 101, 32, 115, 116, 97, 114, 116, 32, 97, 115, 32, 97, 110, 32, 105, 110, 116, 101, 103, 101, 114],
        Msg::LrangeStopParse => vec![99, 111, 117, 108, 100, 110, 39, 116, 32, 112, 97, 114, 115, 101, 32, 115, 116, 111, 112, 32, 97, 115, 32, 97, 110, 32, 105, 110, 116, 101, 103, 101, 114],
        Msg::LlenKey => vec![76, 76, 69, 78, 32, 114, 101, 113, 117, 105, 114, 101, 115, 32, 97, 32, 107, 101, 121, 32, 97, 114, 103, 117, 109, 101, 110, 116],
    };
    proof {
        assert(r@ =~= spec_msg(m));
    }
    r
}

/// An error reply carrying a fixed text.
pub open spec fn spec_err(m: Msg) -> ObjModel {
    ObjModel::Error(spec_msg(m))
}

/// Builds an error reply carrying a fixed text.
pub fn error_reply(m: Msg) -> (r: Object)
    ensures
        obj_model(r) == spec_err(m),
{
    Object::Error(msg_bytes(m))
}

/// A byte sequence with every ASCII lowercase letter raised to uppercase.
pub open spec fn spec_upper(s: Seq<u8>) -> Seq<u8> {
    s.map_values(
        |b: u8|
            if 97 <= b <= 122 {
                (b - 32) as u8
            } else {
                b
            },
    )
}

/// Convert in place a byte vector to ASCII uppercase.
#[verifier::loop_isolation(false)]
pub fn convert_to_ascii_uppercase(s: &mut Vec<u8>)
    ensures
        final(s)@ == spec_upper(old(s)@),
{
    let mut i: usize = 0;
    while i < s.len()
        invariant
            i <= s@.len(),
            s@.len() == old(s)@.len(),
            forall|j: int| 0 <= j < i ==> s@[j] == spec_upper(old(s)@)[j],
            forall|j: int| i <= j < s@.len() ==> s@[j] == old(s)@[j],
        decreases s@.len() - i,
    {
        let b = s[i];
        if 97 <= b && b <= 122 {
            s[i] = b - 32;
        }
        i += 1;
    }
    proof {
        assert(s@ =~= spec_upper(old(s)@));
    }
}

/// The digits of a signed decimal integer: what follows the optional sign.
pub open spec fn sint_digits(s: Seq<u8>) -> Seq<u8> {
    if s.len() > 0 && (s[0] == 43 || s[0] == 45) {
        s.skip(1)
    } else {
        s
    }
}

/// Whether a byte sequence is a signed decimal integer in range: an optional
/// sign, then one or more digits whose value has magnitude at most the
/// largest signed 64-bit value.
pub open spec fn sint_valid(s: Seq<u8>) -> bool {
    sint_digits(s).len() > 0 && all_digits(sint_digits(s)) && digits_val(sint_digits(s))
        <= i64::MAX
}

/// The value of a signed decimal integer.
pub open spec fn sint_val(s: Seq<u8>) -> int {
    if s.len() > 0 && s[0] == 45 {
        -digits_val(sint_digits(s))
    } else {
        digits_val(sint_digits(s))
    }
}

/// Parse an `i64` from a vector of bytes. To parse correctly the bytes must
/// be an optional ASCII sign and then ASCII digits, with a value that fits.
pub fn parse_i64(s: &Vec<u8>) -> (r: Option<i64>)
    ensures
        r is Some <==> sint_valid(s@),
        r is Some ==> r->0 == sint_val(s@),
{
    if s.len() == 0 {
        return None;
    }
    let b0 = s[0];
    let neg = b0 == 45;
    let start: usize = if b0 == 43 || b0 == 45 {
        1
    } else {
        0
    };
    let mut ds: Vec<u8> = Vec::new();
    let mut i: usize = start;
    while i < s.len()
        invariant
            start <= i <= s@.len(),
            ds@ == s@.subrange(start as int, i as int),
        decreases s@.len() - i,
    {
        ds.push(s[i]);
        proof {
            assert(ds@ =~= s@.subrange(start as int, i + 1));
        }
        i += 1;
    }
    proof {
        if start == 1 {
            assert(ds@ =~= s@.skip(1));
        } else {
            assert(ds@ =~= s@);
        }
        assert(ds@ == sint_digits(s@));
    }
    match crate::resp::parse_i64(&ds) {
        None => None,
        Some(v) => {
            if neg {
                Some(-v)
            } else {
                Some(v)
            }
        },
    }
}

/// Whether a byte sequence is a valid `PX` duration: ASCII digits only,
/// with a value that fits an unsigned 64-bit count of milliseconds. An
/// empty sequence counts as zero.
pub open spec fn px_valid(s: Seq<u8>) -> bool {
    all_digits(s) && digits_val(s) <= u64::MAX
}

/// The value of a `PX` duration.
pub open spec fn px_val(s: Seq<u8>) -> int {
    digits_val(s)
}

/// Parse a `PX` duration: a count of milliseconds in ASCII digits.
#[verifier::loop_isolation(false)]
fn parse_px(s: &Vec<u8>) -> (r: Option<u64>)
    ensures
        r is Some <==> px_valid(s@),
        r is Some ==> r->0 == px_val(s@),
{
    let mut i: usize = 0;
    while i < s.len()
        invariant
            i <= s@.len(),
            forall|j: int| 0 <= j < i ==> spec_is_digit(#[trigger] s@[j]),
        decreases s@.len() - i,
    {
        if !is_digit(s[i]) {
            proof {
                assert(!spec_is_digit(s@[i as int]));
            }
            return None;
        }
        i += 1;
    }
    proof {
        assert(all_digits(s@));
    }
    let mut acc: u64 = 0;
    let mut i: usize = 0;
    while i < s.len()
        invariant
            i <= s@.len(),
            forall|j: int| 0 <= j < s@.len() ==> spec_is_digit(#[trigger] s@[j]),
            acc == digits_val(s@.take(i as int)),
        decreases s@.len() - i,
    {
        let d = (s[i] - 48) as u64;
        proof {
            assert(s@.take(i + 1).drop_last() =~= s@.take(i as int));
            assert(s@.take(i + 1).last() == s@[i as int]);
            assert(digits_val(s@.take(i + 1)) == 10 * acc + d);
        }
        if acc > u64::MAX / 10 {
            proof {
                crate::resp::lemma_digits_val_prefix_le(s@, i + 1);
            }
            return None;
        }
        acc = acc * 10;
        match acc.checked_add(d) {
            Some(v) => {
                acc = v;
            },
            None => {
                proof {
                    crate::resp::lemma_digits_val_prefix_le(s@, i + 1);
                }
                return None;
            },
        }
        i += 1;
    }
    proof {
        assert(s@.take(s@.len() as int) =~= s@);
    }
    Some(acc)
}

/// An entry value in the data table.
pub struct Entry {
    /// The entry's value.
    pub value: Object,
    /// When the entry was created, as a reading of the caller's monotonic
    /// millisecond clock.
    pub created_at: u64,
    /// For how long this entry is valid, in milliseconds.
    pub duration: Option<u64>,
}

/// The model of an entry: the value's model with the timing data.
pub struct EntryModel {
    /// The model of the entry's value.
    pub value: ObjModel,
    /// When the entry was created.
    pub created_at: u64,
    /// For how long this entry is valid.
    pub duration: Option<u64>,
}

/// The model of an entry.
pub open spec fn entry_model(e: Entry) -> EntryModel {
    EntryModel { value: obj_model(e.value), created_at: e.created_at, duration: e.duration }
}

/// Builds an [`Entry`] from a value, an optional duration, and the time.
pub struct EntryBuilder {
    /// The value to store.
    pub value: Object,
    /// For how long the entry will be valid.
    pub duration: Option<u64>,
}

impl EntryBuilder {
    /// A builder for an entry holding `value`, with no expiry.
    pub fn new(value: Object) -> (r: Self)
        ensures
            r.value == value,
            r.duration is None,
    {
        EntryBuilder { value, duration: None }
    }

    /// Finish the entry; it is created at the given clock reading.
    pub fn build(self, now_ms: u64) -> (r: Entry)
        ensures
            r.value == self.value,
            r.created_at == now_ms,
            r.duration == self.duration,
    {
        Entry { value: self.value, created_at: now_ms, duration: self.duration }
    }

    /// Let the entry expire `duration_ms` milliseconds after its creation.
    pub fn duration_ms(&mut self, duration_ms: u64)
        ensures
            final(self).value == old(self).value,
            final(self).duration == Some(duration_ms),
    {
        self.duration = Some(duration_ms);
    }
}

/// No two slots of an association list share a key, compared by model.
pub open spec fn distinct_keys(s: Seq<(Object, Entry)>) -> bool {
    forall|i: int, j: int|
        0 <= i < j < s.len() ==> obj_model(#[trigger] s[i].0) != obj_model(#[trigger] s[j].0)
}

/// The mapping an association list stands for.
pub open spec fn store_map(s: Seq<(Object, Entry)>) -> Map<ObjModel, EntryModel>
    decreases s.len(),
{
    if s.len() == 0 {
        Map::empty()
    } else {
        store_map(s.drop_last()).insert(obj_model(s.last().0), entry_model(s.last().1))
    }
}

/// What the mapping of an association list with distinct keys holds: exactly
/// the keys of the slots, each at its slot's entry.
pub proof fn lemma_store_map_props(s: Seq<(Object, Entry)>)
    requires
        distinct_keys(s),
    ensures
        forall|k: ObjModel| #[trigger]
            store_map(s).contains_key(k) ==> exists|i: int|
                0 <= i < s.len() && obj_model(#[trigger] s[i].0) == k,
        forall|i: int|
            0 <= i < s.len() ==> store_map(s).contains_key(obj_model(#[trigger] s[i].0))
                && store_map(s)[obj_model(s[i].0)] == entry_model(s[i].1),
    decreases s.len(),
{
    if s.len() > 0 {
        let pre = s.drop_last();
        assert(forall|i: int| 0 <= i < pre.len() ==> pre[i] == s[i]);
        lemma_store_map_props(pre);
        let klast = obj_model(s.last().0);
        assert(forall|i: int|
            0 <= i < s.len() - 1 ==> obj_model(#[trigger] s[i].0) != klast);
        assert forall|i: int| 0 <= i < s.len() implies store_map(s).contains_key(
            obj_model(#[trigger] s[i].0),
        ) && store_map(s)[obj_model(s[i].0)] == entry_model(s[i].1) by {
            if i < s.len() - 1 {
                assert(store_map(pre).contains_key(obj_model(pre[i].0)));
                assert(obj_model(s[i].0) != klast);
            }
        }
    }
}

/// Whether an entry is expired at a clock reading: it carries a duration and
/// more than that many milliseconds have passed since its creation.
pub open spec fn spec_expired(e: EntryModel, now: u64) -> bool {
    match e.duration {
        Some(d) => now > e.created_at + d,
        None => false,
    }
}

/// The inclusive slice of a list selected by `start` and `stop`, negative
/// values counting from the end of the list:
/// a negative index is re-based on the length (and floored at zero); an
/// empty list, a start at or past the end, or a start beyond the stop give
/// the empty slice; a stop past the end is clamped to the last element.
pub open spec fn lrange_model(items: Seq<ObjModel>, start: int, stop: int) -> Seq<ObjModel> {
    let n = items.len() as int;
    if n == 0 {
        Seq::empty()
    } else {
        let s = if start < 0 {
            if n + start > 0 {
                n + start
            } else {
                0
            }
        } else {
            start
        };
        let e = if stop < 0 {
            if n + stop > 0 {
                n + stop
            } else {
                0
            }
        } else {
            stop
        };
        if s >= n || s > e {
            Seq::empty()
        } else {
            let e2 = if e < n - 1 {
                e
            } else {
                n - 1
            };
            items.subrange(s, e2 + 1)
        }
    }
}

/// What `GET` does: the value at the key, unless it is absent or expired.
pub open spec fn spec_get(m: Map<ObjModel, EntryModel>, args: Seq<ObjModel>, now: u64) -> (
    Map<ObjModel, EntryModel>,
    ObjModel,
) {
    if args.len() == 0 {
        (m, spec_err(Msg::GetKey))
    } else if args.len() > 1 {
        (m, spec_err(Msg::GetOne))
    } else if !m.contains_key(args[0]) {
        (m, ObjModel::BulkString(None))
    } else if spec_expired(m[args[0]], now) {
        (m, ObjModel::BulkString(None))
    } else {
        (m, m[args[0]].value)
    }
}

/// What `SET` does: store the value at the key, with `PX` giving a
/// time-to-live in milliseconds. Any other option, and any arguments beyond
/// the `PX` pair, are rejected.
pub open spec fn spec_set(m: Map<ObjModel, EntryModel>, args: Seq<ObjModel>, now: u64) -> (
    Map<ObjModel, EntryModel>,
    ObjModel,
) {
    if args.len() == 0 {
        (m, spec_err(Msg::SetKey))
    } else if args.len() == 1 {
        (m, spec_err(Msg::SetValue))
    } else if args.len() == 2 {
        (
            m.insert(args[0], EntryModel { value: args[1], created_at: now, duration: None }),
            ObjModel::SimpleString(spec_msg(Msg::OkReply)),
        )
    } else {
        match args[2] {
            ObjModel::BulkString(Some(opt)) => if spec_upper(opt) == spec_msg(Msg::CmdPx) {
                if args.len() == 3 {
                    (m, spec_err(Msg::PxDuration))
                } else if args.len() > 4 {
                    (m, spec_err(Msg::SetArity))
                } else {
                    match args[3] {
                        ObjModel::BulkString(Some(ds)) => if px_valid(ds) {
                            (
                                m.insert(
                                    args[0],
                                    EntryModel {
                                        value: args[1],
                                        created_at: now,
                                        duration: Some(px_val(ds) as u64),
                                    },
                                ),
                                ObjModel::SimpleString(spec_msg(Msg::OkReply)),
                            )
                        } else {
                            (m, spec_err(Msg::InvalidPx))
                        },
                        _ => (m, spec_err(Msg::PxDuration)),
                    }
                }
            } else {
                (m, spec_err(Msg::SetOption))
            },
            _ => (m, spec_err(Msg::SetOption)),
        }
    }
}

/// What `ECHO` does: return its one argument unchanged.
pub open spec fn spec_echo(m: Map<ObjModel, EntryModel>, args: Seq<ObjModel>) -> (
    Map<ObjModel, EntryModel>,
    ObjModel,
) {
    if args.len() == 0 {
        (m, spec_err(Msg::EchoArg))
    } else if args.len() > 1 {
        (m, spec_err(Msg::EchoOne))
    } else {
        (m, args[0])
    }
}

/// What `RPUSH` does: append the values, in order, to the list at the key,
/// creating an empty list first when the key is absent; the reply is the new
/// length. A key holding anything but a list is left alone, with an error.
pub open spec fn spec_rpush(m: Map<ObjModel, EntryModel>, args: Seq<ObjModel>, now: u64) -> (
    Map<ObjModel, EntryModel>,
    ObjModel,
) {
    if args.len() == 0 {
        (m, spec_err(Msg::RpushKey))
    } else if args.len() == 1 {
        (m, spec_err(Msg::RpushElem))
    } else {
        let k = args[0];
        let vals = args.skip(1);
        if !m.contains_key(k) {
            (
                m.insert(
                    k,
                    EntryModel { value: ObjModel::Array(vals), created_at: now, duration: None },
                ),
                ObjModel::Integer(vals.len() as i64),
            )
        } else {
            match m[k].value {
                ObjModel::Array(items) => (
                    m.insert(
                        k,
                        EntryModel {
                            value: ObjModel::Array(items + vals),
                            created_at: m[k].created_at,
                            duration: m[k].duration,
                        },
                    ),
                    ObjModel::Integer((items.len() + vals.len()) as i64),
                ),
                _ => (m, spec_err(Msg::NotArray)),
            }
        }
    }
}

/// What `LPUSH` does: prepend each value in turn to the list at the key, so
/// the values end up reversed in front; otherwise as `RPUSH`.
pub open spec fn spec_lpush(m: Map<ObjModel, EntryModel>, args: Seq<ObjModel>, now: u64) -> (
    Map<ObjModel, EntryModel>,
    ObjModel,
) {
    if args.len() == 0 {
        (m, spec_err(Msg::LpushKey))
    } else if args.len() == 1 {
        (m, spec_err(Msg::LpushElem))
    } else {
        let k = args[0];
        let vals = args.skip(1).reverse();
        if !m.contains_key(k) {
            (
                m.insert(
                    k,
                    EntryModel { value: ObjModel::Array(vals), created_at: now, duration: None },
                ),
                ObjModel::Integer(vals.len() as i64),
            )
        } else {
            match m[k].value {
                ObjModel::Array(items) => (
                    m.insert(
                        k,
                        EntryModel {
                            value: ObjModel::Array(vals + items),
                            created_at: m[k].created_at,
                            duration: m[k].duration,
                        },
                    ),
                    ObjModel::Integer((vals.len() + items.len()) as i64),
                ),
                _ => (m, spec_err(Msg::NotArray)),
            }
        }
    }
}

/// What `LRANGE` does: the slice of the list at the key selected by the two
/// indices; an absent key or a value of another kind gives the empty array.
pub open spec fn spec_lrange(m: Map<ObjModel, EntryModel>, args: Seq<ObjModel>) -> (
    Map<ObjModel, EntryModel>,
    ObjModel,
) {
    if args.len() < 1 {
        (m, spec_err(Msg::LrangeKey))
    } else if args.len() < 2 || !(args[1] matches ObjModel::BulkString(Some(_))) {
        (m, spec_err(Msg::LrangeStart))
    } else if args.len() < 3 || !(args[2] matches ObjModel::BulkString(Some(_))) {
        (m, spec_err(Msg::LrangeStop))
    } else {
        let sb = args[1]->BulkString_0.unwrap();
        let eb = args[2]->BulkString_0.unwrap();
        if !sint_valid(sb) {
            (m, spec_err(Msg::LrangeStartParse))
        } else if !sint_valid(eb) {
            (m, spec_err(Msg::LrangeStopParse))
        } else if !m.contains_key(args[0]) {
            (m, ObjModel::Array(Seq::empty()))
        } else {
            match m[args[0]].value {
                ObjModel::Array(items) => (
                    m,
                    ObjModel::Array(lrange_model(items, sint_val(sb), sint_val(eb))),
                ),
                _ => (m, ObjModel::Array(Seq::empty())),
            }
        }
    }
}

/// What `LLEN` does: the length of the list at the key; zero when the key is
/// absent or holds a value of another kind.
pub open spec fn spec_llen(m: Map<ObjModel, EntryModel>, args: Seq<ObjModel>) -> (
    Map<ObjModel, EntryModel>,
    ObjModel,
) {
    if args.len() == 0 {
        (m, spec_err(Msg::LlenKey))
    } else if !m.contains_key(args[0]) {
        (m, ObjModel::Integer(0))
    } else {
        match m[args[0]].value {
            ObjModel::Array(items) => (m, ObjModel::Integer(items.len() as i64)),
            _ => (m, ObjModel::Integer(0)),
        }
    }
}

/// What `LPOP` does: remove and return the head of the list at the key; a
/// missing key, a value of another kind, or an empty list give the null bulk
/// string.
pub open spec fn spec_lpop(m: Map<ObjModel, EntryModel>, args: Seq<ObjModel>) -> (
    Map<ObjModel, EntryModel>,
    ObjModel,
) {
    if args.len() == 0 {
        (m, spec_err(Msg::LlenKey))
    } else if !m.contains_key(args[0]) {
        (m, ObjModel::BulkString(None))
    } else {
        match m[args[0]].value {
            ObjModel::Array(items) => if items.len() == 0 {
                (m, ObjModel::BulkString(None))
            } else {
                (
                    m.insert(
                        args[0],
                        EntryModel {
                            value: ObjModel::Array(items.drop_first()),
                            created_at: m[args[0]].created_at,
                            duration: m[args[0]].duration,
                        },
                    ),
                    items[0],
                )
            },
            _ => (m, ObjModel::BulkString(None)),
        }
    }
}

/// Dispatch one command by its upper-cased name.
pub open spec fn spec_dispatch(
    m: Map<ObjModel, EntryModel>,
    name: Seq<u8>,
    args: Seq<ObjModel>,
    now: u64,
) -> (Map<ObjModel, EntryModel>, ObjModel) {
    if name == spec_msg(Msg::CmdGet) {
        spec_get(m, args, now)
    } else if name == spec_msg(Msg::CmdPing) {
        (m, ObjModel::SimpleString(spec_msg(Msg::PongReply)))
    } else if name == spec_msg(Msg::CmdEcho) {
        spec_echo(m, args)
    } else if name == spec_msg(Msg::CmdRpush) {
        spec_rpush(m, args, now)
    } else if name == spec_msg(Msg::CmdLpush) {
        spec_lpush(m, args, now)
    } else if name == spec_msg(Msg::CmdSet) {
        spec_set(m, args, now)
    } else if name == spec_msg(Msg::CmdLrange) {
        spec_lrange(m, args)
    } else if name == spec_msg(Msg::CmdLlen) {
        spec_llen(m, args)
    } else if name == spec_msg(Msg::CmdLpop) {
        spec_lpop(m, args)
    } else {
        (m, spec_err(Msg::UnknownCommand))
    }
}

/// What one command does to the store, and what it replies: the whole
/// behaviour of the engine. The reply to any command is a pure function of
/// the store's model, the command's model and the clock reading.
pub open spec fn spec_step(m: Map<ObjModel, EntryModel>, cmd: ObjModel, now: u64) -> (
    Map<ObjModel, EntryModel>,
    ObjModel,
) {
    match cmd {
        ObjModel::Array(elems) => {
            if elems.len() == 0 {
                (m, spec_err(Msg::ExpectedArray))
            } else {
                match elems[0] {
                    ObjModel::BulkString(Some(name)) => spec_dispatch(
                        m,
                        spec_upper(name),
                        elems.skip(1),
                        now,
                    ),
                    _ => (m, spec_err(Msg::ExpectedBulkName)),
                }
            }
        },
        _ => (m, spec_err(Msg::ExpectedArray)),
    }
}

/// Determinism: what a command does and replies is a function of the
/// store's model, the command's model and the clock reading alone. With
/// [`Engine::do_command`] bound to [`spec_step`], a whole reply sequence is
/// therefore a pure function of the command sequence and the clock
/// readings, and the readings matter only through the expiry comparisons.
pub proof fn lemma_step_deterministic(
    m1: Map<ObjModel, EntryModel>,
    m2: Map<ObjModel, EntryModel>,
    c1: ObjModel,
    c2: ObjModel,
    t1: u64,
    t2: u64,
)
    requires
        m1 == m2,
        c1 == c2,
        t1 == t2,
    ensures
        spec_step(m1, c1, t1) == spec_step(m2, c2, t2),
{
}

/// Time-to-live: after `SET k v PX ms` at clock reading `t0`, a `GET k` at
/// reading `t1` returns `v` while at most `ms` milliseconds have passed,
/// and the null bulk string once more than `ms` have.
pub proof fn lemma_ttl(
    m: Map<ObjModel, EntryModel>,
    k: ObjModel,
    v: ObjModel,
    ds: Seq<u8>,
    t0: u64,
    t1: u64,
)
    requires
        px_valid(ds),
    ensures
        ({
            let set_cmd = ObjModel::Array(
                seq![
                    ObjModel::BulkString(Some(spec_msg(Msg::CmdSet))),
                    k,
                    v,
                    ObjModel::BulkString(Some(spec_msg(Msg::CmdPx))),
                    ObjModel::BulkString(Some(ds)),
                ],
            );
            let get_cmd = ObjModel::Array(
                seq![ObjModel::BulkString(Some(spec_msg(Msg::CmdGet))), k],
            );
            let first = spec_step(m, set_cmd, t0);
            let second = spec_step(first.0, get_cmd, t1);
            &&& first.1 == ObjModel::SimpleString(spec_msg(Msg::OkReply))
            &&& second.0 == first.0
            &&& second.1 == (if t1 > t0 + px_val(ds) {
                ObjModel::BulkString(None)
            } else {
                v
            })
        }),
{
    crate::resp::lemma_digits_val_nonneg(ds);
    assert(spec_upper(spec_msg(Msg::CmdSet)) =~= spec_msg(Msg::CmdSet));
    assert(spec_upper(spec_msg(Msg::CmdPx)) =~= spec_msg(Msg::CmdPx));
    assert(spec_upper(spec_msg(Msg::CmdGet)) =~= spec_msg(Msg::CmdGet));
    let set_cmd = ObjModel::Array(
        seq![
            ObjModel::BulkString(Some(spec_msg(Msg::CmdSet))),
            k,
            v,
            ObjModel::BulkString(Some(spec_msg(Msg::CmdPx))),
            ObjModel::BulkString(Some(ds)),
        ],
    );
    let elems = set_cmd->Array_0;
    assert(elems.skip(1) =~= seq![
        k,
        v,
        ObjModel::BulkString(Some(spec_msg(Msg::CmdPx))),
        ObjModel::BulkString(Some(ds)),
    ]);
    let get_cmd = ObjModel::Array(seq![ObjModel::BulkString(Some(spec_msg(Msg::CmdGet))), k]);
    assert(get_cmd->Array_0.skip(1) =~= seq![k]);
    let first = spec_step(m, set_cmd, t0);
    let e = EntryModel { value: v, created_at: t0, duration: Some(px_val(ds) as u64) };
    assert(first.0 == m.insert(k, e));
    assert(first.0[k] == e);
}

/// The expiry outcome depends only on the delta between the two clock
/// readings: shifting both the `SET` and the `GET` reading by the same
/// amount leaves the `GET` reply unchanged.
pub proof fn lemma_ttl_shift(
    m: Map<ObjModel, EntryModel>,
    k: ObjModel,
    v: ObjModel,
    ds: Seq<u8>,
    t0: u64,
    t1: u64,
    c: u64,
)
    requires
        px_valid(ds),
        t0 + c <= u64::MAX,
        t1 + c <= u64::MAX,
    ensures
        ({
            let set_cmd = ObjModel::Array(
                seq![
                    ObjModel::BulkString(Some(spec_msg(Msg::CmdSet))),
                    k,
                    v,
                    ObjModel::BulkString(Some(spec_msg(Msg::CmdPx))),
                    ObjModel::BulkString(Some(ds)),
                ],
            );
            let get_cmd = ObjModel::Array(
                seq![ObjModel::BulkString(Some(spec_msg(Msg::CmdGet))), k],
            );
            let plain = spec_step(spec_step(m, set_cmd, t0).0, get_cmd, t1);
            let shifted = spec_step(
                spec_step(m, set_cmd, (t0 + c) as u64).0,
                get_cmd,
                (t1 + c) as u64,
            );
            shifted.1 == plain.1
        }),
{
    lemma_ttl(m, k, v, ds, t0, t1);
    lemma_ttl(m, k, v, ds, (t0 + c) as u64, (t1 + c) as u64);
}

/// The range command's slice is exactly the contiguous run of the list that
/// the normalized indices select: nothing outside the list, elements in
/// list order, and the empty sequence when the normalized start lies at or
/// past the end of the list or beyond the normalized stop.
pub proof fn lemma_lrange_props(items: Seq<ObjModel>, start: int, stop: int)
    ensures
        ({
            let n = items.len() as int;
            let s = if start < 0 {
                if n + start > 0 {
                    n + start
                } else {
                    0
                }
            } else {
                start
            };
            let e0 = if stop < 0 {
                if n + stop > 0 {
                    n + stop
                } else {
                    0
                }
            } else {
                stop
            };
            let e = if e0 < n - 1 {
                e0
            } else {
                n - 1
            };
            let r = lrange_model(items, start, stop);
            &&& (n == 0 || s >= n || s > e0) ==> r == Seq::<ObjModel>::empty()
            &&& !(n == 0 || s >= n || s > e0) ==> r == items.subrange(s, e + 1)
            &&& r.len() <= items.len()
            &&& forall|j: int| 0 <= j < r.len() ==> r[j] == items[s + j]
        }),
{
}

/// Type guarding: pushing onto a key that holds a value of another kind
/// than a list replies with an error and leaves the store unchanged, from
/// either end.
pub proof fn lemma_push_type_guard(
    m: Map<ObjModel, EntryModel>,
    args: Seq<ObjModel>,
    now: u64,
)
    requires
        args.len() >= 2,
        m.contains_key(args[0]),
        !(m[args[0]].value is Array),
    ensures
        spec_rpush(m, args, now) == (m, spec_err(Msg::NotArray)),
        spec_lpush(m, args, now) == (m, spec_err(Msg::NotArray)),
{
}

/// No error poisons the store: a command whose reply is an error leaves the
/// store's model unchanged. The premises only rule out values the wire
/// cannot carry anyway, so that nothing fetched back out of the store (by a
/// pop, say) is itself an error object.
pub proof fn lemma_error_replies_leave_store(
    m: Map<ObjModel, EntryModel>,
    cmd: ObjModel,
    now: u64,
)
    requires
        wire_wf(cmd),
        forall|k: ObjModel| m.contains_key(k) ==> wire_wf(#[trigger] m[k].value),
    ensures
        spec_step(m, cmd, now).1 is Error ==> spec_step(m, cmd, now).0 == m,
{
    if cmd is Array && cmd->Array_0.len() > 0 {
        let elems = cmd->Array_0;
        if elems[0] is BulkString && elems[0]->BulkString_0 is Some {
            let name = spec_upper(elems[0]->BulkString_0.unwrap());
            let args = elems.skip(1);
            if name == spec_msg(Msg::CmdLpop) && args.len() > 0 && m.contains_key(args[0]) {
                let stored = m[args[0]].value;
                if stored is Array && stored->Array_0.len() > 0 {
                    assert(wire_wf(stored));
                    assert(wire_wf(stored->Array_0[0]));
                    assert(!(stored->Array_0[0] is Error));
                }
            }
        }
    }
}

/// Holds the current state of the engine.
pub struct Engine {
    /// The key/value data store, keyed by object models; no two slots share
    /// a key.
    data: Vec<(Object, Entry)>,
}

/// Take the elements out of an array object.
fn into_array_items(o: Object) -> (r: Vec<Object>)
    requires
        obj_model(o) is Array,
    ensures
        seq_model(r@) == obj_model(o)->Array_0,
{
    broadcast use crate::object::lemma_obj_model_array;

    match o {
        Object::Array(arr) => arr.items,
        _ => {
            proof {
                assert(false);
            }
            Vec::new()
        },
    }
}

/// Find the slot holding `key`, by model.
fn find_entry(data: &Vec<(Object, Entry)>, key: &Object) -> (r: Option<usize>)
    ensures
        match r {
            Some(i) => i < data@.len() && obj_model(data@[i as int].0) == obj_model(*key),
            None => forall|i: int|
                0 <= i < data@.len() ==> obj_model(#[trigger] data@[i].0) != obj_model(*key),
        },
{
    let mut i: usize = 0;
    while i < data.len()
        invariant
            i <= data@.len(),
            forall|j: int| 0 <= j < i ==> obj_model(#[trigger] data@[j].0) != obj_model(*key),
        decreases data@.len() - i,
    {
        if obj_eq(&data[i].0, key) {
            return Some(i);
        }
        i += 1;
    }
    None
}

impl ObjectArray {
    /// The inclusive slice selected by `start` and `stop`, cloned out of
    /// the array; negative indices count from the end.
    #[verifier::loop_isolation(false)]
    pub fn lrange(&self, start: i64, stop: i64) -> (r: Vec<Object>)
        ensures
            seq_model(r@) == lrange_model(seq_model(self.items@), start as int, stop as int),
    {
        let len = self.items.len();
        let ghost items = seq_model(self.items@);
        let empty: Vec<Object> = Vec::new();
        proof {
            assert(seq_model(empty@) =~= Seq::<ObjModel>::empty());
        }
        if len == 0 {
            return empty;
        }
        let n_i = len as i128;
        let s_i: i128 = if start < 0 {
            let v = n_i + start as i128;
            if v > 0 {
                v
            } else {
                0
            }
        } else {
            start as i128
        };
        let e_i: i128 = if stop < 0 {
            let v = n_i + stop as i128;
            if v > 0 {
                v
            } else {
                0
            }
        } else {
            stop as i128
        };
        if s_i >= n_i || s_i > e_i {
            return empty;
        }
        let e2_i: i128 = if e_i < n_i - 1 {
            e_i
        } else {
            n_i - 1
        };
        let s_u = s_i as usize;
        let e_u = e2_i as usize;
        let mut r: Vec<Object> = Vec::new();
        proof {
            assert(seq_model(r@) =~= items.subrange(s_u as int, s_u as int));
        }
        let mut j = s_u;
        while j <= e_u
            invariant
                s_u <= j <= e_u + 1,
                e_u < self.items@.len(),
                r@.len() == j - s_u,
                seq_model(r@) == items.subrange(s_u as int, j as int),
            decreases e_u + 1 - j,
        {
            let ghost prev = r@;
            r.push(obj_clone(&self.items[j]));
            proof {
                assert(forall|t: int|
                    0 <= t < prev.len() ==> #[trigger] seq_model(r@)[t] == seq_model(prev)[t]);
                assert(seq_model(r@)[prev.len() as int] == obj_model(self.items@[j as int]));
                assert(seq_model(r@) =~= items.subrange(s_u as int, j + 1));
            }
            j += 1;
        }
        r
    }
}

impl Engine {
    /// The store is well formed: no two slots share a key.
    pub closed spec fn wf(&self) -> bool {
        distinct_keys(self.data@)
    }

    /// The store's model: a mapping from key models to entry models.
    pub closed spec fn store(&self) -> Map<ObjModel, EntryModel> {
        store_map(self.data@)
    }

    /// A fresh engine with an empty store.
    pub fn new() -> (r: Self)
        ensures
            r.wf(),
            r.store() == Map::<ObjModel, EntryModel>::empty(),
    {
        let data = Vec::new();
        Self { data }
    }

    /// Do an echo command. This returns the argument as is back to the
    /// client.
    pub fn do_echo(&mut self, args: Vec<Object>) -> (r: Object)
        requires
            old(self).wf(),
        ensures
            final(self).wf(),
            final(self).store() == spec_echo(old(self).store(), seq_model(args@)).0,
            obj_model(r) == spec_echo(old(self).store(), seq_model(args@)).1,
    {
        let mut args = args;
        if args.len() == 0 {
            return error_reply(Msg::EchoArg);
        }
        if args.len() > 1 {
            return error_reply(Msg::EchoOne);
        }
        args.remove(0)
    }

    /// Do a get command: the value at the key, unless absent or expired at
    /// the given clock reading.
    pub fn do_get(&mut self, args: Vec<Object>, now_ms: u64) -> (r: Object)
        requires
            old(self).wf(),
        ensures
            final(self).wf(),
            final(self).store() == spec_get(old(self).store(), seq_model(args@), now_ms).0,
            obj_model(r) == spec_get(old(self).store(), seq_model(args@), now_ms).1,
    {
        proof {
            lemma_store_map_props(self.data@);
        }
        if args.len() == 0 {
            return error_reply(Msg::GetKey);
        }
        if args.len() > 1 {
            return error_reply(Msg::GetOne);
        }
        let ghost km = seq_model(args@)[0];
        match find_entry(&self.data, &args[0]) {
            None => {
                proof {
                    if self.store().contains_key(km) {
                        assert(false);
                    }
                }
                Object::BulkString(None)
            },
            Some(i) => {
                let entry = &self.data[i].1;
                proof {
                    assert(self.store().contains_key(km));
                    assert(self.store()[km] == entry_model(self.data@[i as int].1));
                }
                let is_expired = match entry.duration {
                    Some(d) => match entry.created_at.checked_add(d) {
                        Some(limit) => now_ms > limit,
                        None => false,
                    },
                    None => false,
                };
                if is_expired {
                    Object::BulkString(None)
                } else {
                    obj_clone(&entry.value)
                }
            },
        }
    }

    /// Do a list-length command: the length of the list at the key, zero
    /// when the key is absent or holds a value of another kind.
    pub fn do_llen(&mut self, args: Vec<Object>) -> (r: Object)
        requires
            old(self).wf(),
        ensures
            final(self).wf(),
            final(self).store() == spec_llen(old(self).store(), seq_model(args@)).0,
            obj_model(r) == spec_llen(old(self).store(), seq_model(args@)).1,
    {
        broadcast use crate::object::lemma_obj_model_array;

        proof {
            lemma_store_map_props(self.data@);
        }
        if args.len() == 0 {
            return error_reply(Msg::LlenKey);
        }
        let ghost km = seq_model(args@)[0];
        match find_entry(&self.data, &args[0]) {
            None => {
                proof {
                    if self.store().contains_key(km) {
                        assert(false);
                    }
                }
                Object::Integer(0)
            },
            Some(i) => {
                proof {
                    assert(self.store()[km] == entry_model(self.data@[i as int].1));
                }
                match &self.data[i].1.value {
                    Object::Array(arr) => Object::Integer(
                        #[verifier::truncate] (arr.items.len() as i64),
                    ),
                    _ => Object::Integer(0),
                }
            },
        }
    }

    /// Do a set command: store the value at the key, with the `PX` option
    /// giving a time-to-live in milliseconds from the given clock reading.
    pub fn do_set(&mut self, args: Vec<Object>, now_ms: u64) -> (r: Object)
        requires
            old(self).wf(),
        ensures
            final(self).wf(),
            final(self).store() == spec_set(old(self).store(), seq_model(args@), now_ms).0,
            obj_model(r) == spec_set(old(self).store(), seq_model(args@), now_ms).1,
    {
        let mut args = args;
        let ghost args0 = seq_model(args@);
        if args.len() == 0 {
            return error_reply(Msg::SetKey);
        }
        if args.len() == 1 {
            return error_reply(Msg::SetValue);
        }
        let key = args.remove(0);
        let value = args.remove(0);
        proof {
            assert(obj_model(key) == args0[0]);
            assert(obj_model(value) == args0[1]);
            assert(forall|j: int|
                0 <= j < args@.len() ==> seq_model(args@)[j] == args0[j + 2]);
        }
        let mut builder = EntryBuilder::new(value);
        if args.len() == 0 {
            let entry = builder.build(now_ms);
            self.store_insert(key, entry);
            return Object::SimpleString(msg_bytes(Msg::OkReply));
        }
        let opt = args.remove(0);
        proof {
            assert(obj_model(opt) == args0[2]);
            assert(forall|j: int|
                0 <= j < args@.len() ==> seq_model(args@)[j] == args0[j + 3]);
        }
        match opt {
            Object::BulkString(Some(ob)) => {
                let mut ob = ob;
                let ghost ob0 = ob@;
                convert_to_ascii_uppercase(&mut ob);
                if bytes_eq(&ob, &msg_bytes(Msg::CmdPx)) {
                    if args.len() == 0 {
                        return error_reply(Msg::PxDuration);
                    }
                    if args.len() > 1 {
                        return error_reply(Msg::SetArity);
                    }
                    let dur = args.remove(0);
                    proof {
                        assert(obj_model(dur) == args0[3]);
                    }
                    match dur {
                        Object::BulkString(Some(ds)) => {
                            match parse_px(&ds) {
                                Some(ms) => {
                                    builder.duration_ms(ms);
                                    let entry = builder.build(now_ms);
                                    self.store_insert(key, entry);
                                    Object::SimpleString(msg_bytes(Msg::OkReply))
                                },
                                None => error_reply(Msg::InvalidPx),
                            }
                        },
                        _ => error_reply(Msg::PxDuration),
                    }
                } else {
                    error_reply(Msg::SetOption)
                }
            },
            _ => error_reply(Msg::SetOption),
        }
    }

    /// Do a pop command: remove and return the head of the list at the key;
    /// a missing key, a value of another kind, or an empty list give the
    /// null bulk string.
    pub fn do_lpop(&mut self, args: Vec<Object>) -> (r: Object)
        requires
            old(self).wf(),
        ensures
            final(self).wf(),
            final(self).store() == spec_lpop(old(self).store(), seq_model(args@)).0,
            obj_model(r) == spec_lpop(old(self).store(), seq_model(args@)).1,
    {
        broadcast use crate::object::lemma_obj_model_array;

        proof {
            lemma_store_map_props(self.data@);
        }
        let mut args = args;
        let ghost km = seq_model(args@)[0];
        if args.len() == 0 {
            return error_reply(Msg::LlenKey);
        }
        let key = args.remove(0);
        match find_entry(&self.data, &key) {
            None => {
                proof {
                    if self.store().contains_key(km) {
                        assert(false);
                    }
                }
                Object::BulkString(None)
            },
            Some(i) => {
                proof {
                    assert(self.store()[km] == entry_model(self.data@[i as int].1));
                }
                match &self.data[i].1.value {
                    Object::Array(arr) => {
                        if arr.items.len() == 0 {
                            return Object::BulkString(None);
                        }
                    },
                    _ => {
                        return Object::BulkString(None);
                    },
                }
                let created = self.data[i].1.created_at;
                let dur = self.data[i].1.duration;
                let cloned = obj_clone(&self.data[i].1.value);
                let mut items = into_array_items(cloned);
                let head = items.remove(0);
                proof {
                    assert(seq_model(items@) =~= self.store()[km].value->Array_0.drop_first());
                }
                let entry = Entry {
                    value: Object::Array(ObjectArray { items }),
                    created_at: created,
                    duration: dur,
                };
                self.store_insert(key, entry);
                head
            },
        }
    }

    /// Do a right-push command: append the values, in order, to the list at
    /// the key, creating the list when the key is absent; the reply is the
    /// new length.
    pub fn do_rpush(&mut self, args: Vec<Object>, now_ms: u64) -> (r: Object)
        requires
            old(self).wf(),
        ensures
            final(self).wf(),
            final(self).store() == spec_rpush(old(self).store(), seq_model(args@), now_ms).0,
            obj_model(r) == spec_rpush(old(self).store(), seq_model(args@), now_ms).1,
    {
        broadcast use crate::object::lemma_obj_model_array;

        proof {
            lemma_store_map_props(self.data@);
        }
        let mut args = args;
        let ghost args0 = seq_model(args@);
        if args.len() == 0 {
            return error_reply(Msg::RpushKey);
        }
        if args.len() == 1 {
            return error_reply(Msg::RpushElem);
        }
        let key = args.remove(0);
        proof {
            assert(obj_model(key) == args0[0]);
            assert(seq_model(args@) =~= args0.skip(1));
        }
        match find_entry(&self.data, &key) {
            None => {
                proof {
                    if self.store().contains_key(args0[0]) {
                        assert(false);
                    }
                }
                let n = args.len();
                let entry = EntryBuilder::new(Object::new_array(args)).build(now_ms);
                self.store_insert(key, entry);
                Object::Integer(#[verifier::truncate] (n as i64))
            },
            Some(i) => {
                proof {
                    assert(self.store()[args0[0]] == entry_model(self.data@[i as int].1));
                }
                match &self.data[i].1.value {
                    Object::Array(_) => {},
                    _ => {
                        return error_reply(Msg::NotArray);
                    },
                }
                let created = self.data[i].1.created_at;
                let dur = self.data[i].1.duration;
                let cloned = obj_clone(&self.data[i].1.value);
                let mut items = into_array_items(cloned);
                let ghost itm = seq_model(items@);
                items.append(&mut args);
                proof {
                    assert(seq_model(items@) =~= itm + args0.skip(1));
                }
                let n = items.len();
                let entry = Entry {
                    value: Object::Array(ObjectArray { items }),
                    created_at: created,
                    duration: dur,
                };
                self.store_insert(key, entry);
                Object::Integer(#[verifier::truncate] (n as i64))
            },
        }
    }

    /// Do a left-push command: prepend each value in turn to the list at
    /// the key, so the values end up reversed in front; the reply is the
    /// new length.
    #[verifier::loop_isolation(false)]
    pub fn do_lpush(&mut self, args: Vec<Object>, now_ms: u64) -> (r: Object)
        requires
            old(self).wf(),
        ensures
            final(self).wf(),
            final(self).store() == spec_lpush(old(self).store(), seq_model(args@), now_ms).0,
            obj_model(r) == spec_lpush(old(self).store(), seq_model(args@), now_ms).1,
    {
        broadcast use crate::object::lemma_obj_model_array;

        proof {
            lemma_store_map_props(self.data@);
        }
        let mut args = args;
        let ghost args0 = seq_model(args@);
        if args.len() == 0 {
            return error_reply(Msg::LpushKey);
        }
        if args.len() == 1 {
            return error_reply(Msg::LpushElem);
        }
        let key = args.remove(0);
        proof {
            assert(obj_model(key) == args0[0]);
            assert(seq_model(args@) =~= args0.skip(1));
        }
        let ghost vals0 = args0.skip(1);
        let mut reversed: Vec<Object> = Vec::new();
        while args.len() > 0
            invariant
                seq_model(args@) == vals0.take(args@.len() as int),
                reversed@.len() + args@.len() == vals0.len(),
                seq_model(reversed@) == vals0.skip(args@.len() as int).reverse(),
            decreases args@.len(),
        {
            let ghost prev = args@;
            let ghost prevrev = reversed@;
            let last = args.remove(args.len() - 1);
            reversed.push(last);
            proof {
                assert(args@ =~= prev.drop_last());
                assert(seq_model(args@) =~= vals0.take(args@.len() as int));
                assert(obj_model(last) == seq_model(prev)[prev.len() - 1]);
                assert(obj_model(last) == vals0[args@.len() as int]);
                assert(forall|j: int|
                    0 <= j < prevrev.len() ==> #[trigger] seq_model(reversed@)[j] == seq_model(
                        prevrev,
                    )[j]);
                assert(seq_model(reversed@)[prevrev.len() as int] == obj_model(last));
                assert(seq_model(reversed@) =~= vals0.skip(args@.len() as int).reverse());
            }
        }
        proof {
            assert(vals0.skip(0) =~= vals0);
            assert(seq_model(reversed@) == vals0.reverse());
        }
        match find_entry(&self.data, &key) {
            None => {
                proof {
                    if self.store().contains_key(args0[0]) {
                        assert(false);
                    }
                }
                let n = reversed.len();
                let entry = EntryBuilder::new(Object::new_array(reversed)).build(now_ms);
                self.store_insert(key, entry);
                Object::Integer(#[verifier::truncate] (n as i64))
            },
            Some(i) => {
                proof {
                    assert(self.store()[args0[0]] == entry_model(self.data@[i as int].1));
                }
                match &self.data[i].1.value {
                    Object::Array(_) => {},
                    _ => {
                        return error_reply(Msg::NotArray);
                    },
                }
                let created = self.data[i].1.created_at;
                let dur = self.data[i].1.duration;
                let cloned = obj_clone(&self.data[i].1.value);
                let mut tail = into_array_items(cloned);
                let ghost itm = seq_model(tail@);
                let mut items = reversed;
                items.append(&mut tail);
                proof {
                    assert(seq_model(items@) =~= vals0.reverse() + itm);
                }
                let n = items.len();
                let entry = Entry {
                    value: Object::Array(ObjectArray { items }),
                    created_at: created,
                    duration: dur,
                };
                self.store_insert(key, entry);
                Object::Integer(#[verifier::truncate] (n as i64))
            },
        }
    }

    /// Do a range command: the slice of the list at the key selected by the
    /// two indices; an absent key or a value of another kind gives the
    /// empty array.
    pub fn do_lrange(&mut self, args: Vec<Object>) -> (r: Object)
        requires
            old(self).wf(),
        ensures
            final(self).wf(),
            final(self).store() == spec_lrange(old(self).store(), seq_model(args@)).0,
            obj_model(r) == spec_lrange(old(self).store(), seq_model(args@)).1,
    {
        broadcast use crate::object::lemma_obj_model_array;

        proof {
            lemma_store_map_props(self.data@);
        }
        let mut args = args;
        let ghost args0 = seq_model(args@);
        if args.len() == 0 {
            return error_reply(Msg::LrangeKey);
        }
        let key = args.remove(0);
        if args.len() == 0 {
            return error_reply(Msg::LrangeStart);
        }
        let start_obj = args.remove(0);
        proof {
            assert(obj_model(start_obj) == args0[1]);
        }
        let sb = match start_obj {
            Object::BulkString(Some(sb)) => sb,
            _ => {
                return error_reply(Msg::LrangeStart);
            },
        };
        if args.len() == 0 {
            return error_reply(Msg::LrangeStop);
        }
        let stop_obj = args.remove(0);
        proof {
            assert(obj_model(stop_obj) == args0[2]);
        }
        let eb = match stop_obj {
            Object::BulkString(Some(eb)) => eb,
            _ => {
                return error_reply(Msg::LrangeStop);
            },
        };
        let start = match parse_i64(&sb) {
            Some(v) => v,
            None => {
                return error_reply(Msg::LrangeStartParse);
            },
        };
        let stop = match parse_i64(&eb) {
            Some(v) => v,
            None => {
                return error_reply(Msg::LrangeStopParse);
            },
        };
        let ghost km = args0[0];
        match find_entry(&self.data, &key) {
            None => {
                proof {
                    if self.store().contains_key(km) {
                        assert(false);
                    }
                }
                Object::new_empty_array()
            },
            Some(i) => {
                proof {
                    assert(self.store()[km] == entry_model(self.data@[i as int].1));
                }
                match &self.data[i].1.value {
                    Object::Array(arr) => {
                        let out = arr.lrange(start, stop);
                        Object::new_array(out)
                    },
                    _ => Object::new_empty_array(),
                }
            },
        }
    }

    /// Do the command described in the given object, at the given reading
    /// of the caller's monotonic millisecond clock. The store's model moves
    /// to the step function's state, and the reply is the step function's
    /// reply: one object, whatever the command was.
    pub fn do_command(&mut self, object: Object, now_ms: u64) -> (r: Object)
        requires
            old(self).wf(),
        ensures
            final(self).wf(),
            final(self).store() == spec_step(old(self).store(), obj_model(object), now_ms).0,
            obj_model(r) == spec_step(old(self).store(), obj_model(object), now_ms).1,
    {
        broadcast use crate::object::lemma_obj_model_array;

        let arr = match object {
            Object::Array(arr) => arr,
            _ => {
                return error_reply(Msg::ExpectedArray);
            },
        };
        let mut elements = arr.items;
        let ghost elems0 = seq_model(elements@);
        if elements.len() == 0 {
            return error_reply(Msg::ExpectedArray);
        }
        let command = elements.remove(0);
        proof {
            assert(obj_model(command) == elems0[0]);
            assert(seq_model(elements@) =~= elems0.skip(1));
        }
        let mut name = match command {
            Object::BulkString(Some(name)) => name,
            _ => {
                return error_reply(Msg::ExpectedBulkName);
            },
        };
        convert_to_ascii_uppercase(&mut name);
        if bytes_eq(&name, &msg_bytes(Msg::CmdGet)) {
            self.do_get(elements, now_ms)
        } else if bytes_eq(&name, &msg_bytes(Msg::CmdPing)) {
            Object::SimpleString(msg_bytes(Msg::PongReply))
        } else if bytes_eq(&name, &msg_bytes(Msg::CmdEcho)) {
            self.do_echo(elements)
        } else if bytes_eq(&name, &msg_bytes(Msg::CmdRpush)) {
            self.do_rpush(elements, now_ms)
        } else if bytes_eq(&name, &msg_bytes(Msg::CmdLpush)) {
            self.do_lpush(elements, now_ms)
        } else if bytes_eq(&name, &msg_bytes(Msg::CmdSet)) {
            self.do_set(elements, now_ms)
        } else if bytes_eq(&name, &msg_bytes(Msg::CmdLrange)) {
            self.do_lrange(elements)
        } else if bytes_eq(&name, &msg_bytes(Msg::CmdLlen)) {
            self.do_llen(elements)
        } else if bytes_eq(&name, &msg_bytes(Msg::CmdLpop)) {
            self.do_lpop(elements)
        } else {
            error_reply(Msg::UnknownCommand)
        }
    }

    /// Put `entry` at `key`, replacing whatever was there.
    fn store_insert(&mut self, key: Object, entry: Entry)
        requires
            old(self).wf(),
        ensures
            final(self).wf(),
            final(self).store() == old(self).store().insert(
                obj_model(key),
                entry_model(entry),
            ),
    {
        let ghost s0 = self.data@;
        let ghost km = obj_model(key);
        match find_entry(&self.data, &key) {
            Some(i) => {
                let _removed = self.data.remove(i);
                let ghost s1 = self.data@;
                proof {
                    assert(forall|j: int| 0 <= j < i ==> s1[j] == s0[j]);
                    assert(forall|j: int| i <= j < s1.len() ==> s1[j] == s0[j + 1]);
                    assert(distinct_keys(s1));
                    assert(forall|j: int|
                        0 <= j < s1.len() ==> obj_model(#[trigger] s1[j].0) != km);
                }
                self.data.push((key, entry));
                proof {
                    assert(self.data@.drop_last() =~= s1);
                    assert(distinct_keys(self.data@));
                    lemma_store_map_props(s0);
                    lemma_store_map_props(s1);
                    assert(store_map(self.data@) == store_map(s1).insert(km, entry_model(entry)));
                    assert forall|x: ObjModel|
                        store_map(s1).insert(km, entry_model(entry)).dom().contains(x)
                            <==> #[trigger] store_map(s0).insert(
                            km,
                            entry_model(entry),
                        ).dom().contains(x) by {
                        if x != km {
                            if store_map(s1).contains_key(x) {
                                let j = choose|j: int|
                                    0 <= j < s1.len() && obj_model(#[trigger] s1[j].0) == x;
                                if j < i {
                                    assert(s0[j] == s1[j]);
                                } else {
                                    assert(s0[j + 1] == s1[j]);
                                }
                            }
                            if store_map(s0).contains_key(x) {
                                let j = choose|j: int|
                                    0 <= j < s0.len() && obj_model(#[trigger] s0[j].0) == x;
                                assert(j != i);
                                if j < i {
                                    assert(s1[j] == s0[j]);
                                } else {
                                    assert(s1[j - 1] == s0[j]);
                                }
                            }
                        }
                    }
                    assert forall|x: ObjModel|
                        store_map(s1).insert(km, entry_model(entry)).dom().contains(x) && x != km
                            implies store_map(s1).insert(km, entry_model(entry))[x] == store_map(
                            s0,
                        ).insert(km, entry_model(entry))[x] by {
                        let j = choose|j: int|
                            0 <= j < s1.len() && obj_model(#[trigger] s1[j].0) == x;
                        if j < i {
                            assert(s0[j] == s1[j]);
                            assert(store_map(s0)[x] == entry_model(s0[j].1));
                        } else {
                            assert(s0[j + 1] == s1[j]);
                            assert(store_map(s0)[x] == entry_model(s0[j + 1].1));
                        }
                        assert(store_map(s1)[x] == entry_model(s1[j].1));
                    }
                    assert(store_map(s1).insert(km, entry_model(entry)) =~= store_map(s0).insert(
                        km,
                        entry_model(entry),
                    ));
                }
            },
            None => {
                self.data.push((key, entry));
                proof {
                    assert(self.data@.drop_last() =~= s0);
                    assert(distinct_keys(self.data@));
                    assert(store_map(self.data@) == store_map(s0).insert(km, entry_model(entry)));
                }
            },
        }
    }
}

} // verus!
