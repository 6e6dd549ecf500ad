//! The answers of the remote control service: status and task triggers.

use vstd::prelude::*;
use crate::config::{Config, TaskDefinition};

verus! {

/// The answer to a status request.
#[derive(Debug)]
pub struct StatusResponse {
    pub version: String,
    pub rules_count: u32,
    pub tasks_count: u32,
}

/// The answer to a request to trigger a task.
#[derive(Debug)]
pub struct TriggerResponse {
    pub success: bool,
    pub message: String,
}

/// The status of the service: its version, and the numbers of rules and of
/// tasks, each cut to 32 bits as the wire format holds them.
pub fn status_response(config: &Config) -> (r: StatusResponse)
    ensures
        r.version@ == "0.1.0"@,
        r.rules_count == config.rules().len() as u32,
        r.tasks_count == config.tasks_view().len() as u32,
{
    StatusResponse {
        version: String::from_str("0.1.0"),
        rules_count: config.watch().len() as u32,
        tasks_count: config.tasks_len() as u32,
    }
}

/// The message of a trigger answer.
pub open spec fn trigger_message(task_name: Seq<char>, found: bool) -> Seq<char> {
    if found {
        "Task "@ + task_name + " triggered successfully"@
    } else {
        "Task "@ + task_name + " not found"@
    }
}

/// The answer to a trigger of `task_name`, with the definition to start when
/// the task exists. The answer succeeds exactly when it exists.
pub fn trigger_response(config: &Config, task_name: &str) -> (r: (TriggerResponse, Option<
    TaskDefinition,
>))
    ensures
        r.0.success == config.tasks_view().contains_key(task_name@),
        r.0.message@ == trigger_message(task_name@, r.0.success),
        r.1 is Some == r.0.success,
        r.1 matches Some(t) ==> t@ == config.tasks_view()[task_name@],
{
    let mut message = String::from_str("Task ");
    message.append(task_name);
    match config.task(task_name) {
        Some(t) => {
            message.append(" triggered successfully");
            (TriggerResponse { success: true, message }, Some(t.duplicate()))
        },
        None => {
            message.append(" not found");
            (TriggerResponse { success: false, message }, None)
        },
    }
}

} // verus!
