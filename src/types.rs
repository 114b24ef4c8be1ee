use vstd::prelude::*;
use crate::time::Timestamp;

verus! {

/// When a task runs.
#[derive(Clone, Copy, Debug, PartialEq, Eq, Structural)]
pub enum Schedule {
    /// Once, at an absolute instant.
    Once(Timestamp),
    /// Every day at `hour:minute` on the local clock.
    Daily { hour: u32, minute: u32 },
    /// Each time task `task_id` finishes, after waiting `delay_secs`.
    After { task_id: u64, delay_secs: u64 },
}

impl Schedule {
    /// Tasks with a schedule of their own own a timer; dependents do not.
    pub open spec fn has_timer(self) -> bool {
        !(self is After)
    }
}

/// What a task runs and where its output goes; never changed once created.
#[derive(Debug)]
pub struct TaskSpec {
    pub cmd: String,
    pub args: Vec<String>,
    pub output_path: String,
    pub append: bool,
    pub schedule: Schedule,
}

/// The value of a `TaskSpec`: its strings as character sequences.
pub struct TaskSpecView {
    pub cmd: Seq<char>,
    pub args: Seq<Seq<char>>,
    pub output_path: Seq<char>,
    pub append: bool,
    pub schedule: Schedule,
}

impl View for TaskSpec {
    type V = TaskSpecView;

    open spec fn view(&self) -> TaskSpecView {
        TaskSpecView {
            cmd: self.cmd@,
            args: self.args@.map_values(|a: String| a@),
            output_path: self.output_path@,
            append: self.append,
            schedule: self.schedule,
        }
    }
}

impl Clone for TaskSpec {
    fn clone(&self) -> (r: Self)
        ensures
            r@ == self@,
    {
        let args = self.args.clone();
        assert(args@ =~= self.args@);
        TaskSpec {
            cmd: self.cmd.clone(),
            args,
            output_path: self.output_path.clone(),
            append: self.append,
            schedule: self.schedule,
        }
    }
}

/// The outcome of one completed run of a task's command.
#[derive(Debug)]
pub struct RunResult {
    pub finished_at: Timestamp,
    /// Exit code of the command, or -1 where none could be determined.
    pub status_code: i32,
    pub stdout_len: usize,
    pub stderr_len: usize,
    pub wrote_to: String,
}

impl Clone for RunResult {
    fn clone(&self) -> (r: Self)
        ensures
            r == *self,
    {
        RunResult {
            finished_at: self.finished_at,
            status_code: self.status_code,
            stdout_len: self.stdout_len,
            stderr_len: self.stderr_len,
            wrote_to: self.wrote_to.clone(),
        }
    }
}

/// One task as a listing shows it.
#[derive(Debug)]
pub struct TaskInfo {
    pub id: u64,
    pub spec: TaskSpec,
    pub last_result: Option<RunResult>,
}

/// A request from a client.
#[derive(Debug)]
pub enum ClientRequest {
    AddTask(TaskSpec),
    RemoveTask { id: u64 },
    ListTasks,
}

/// The answer to a client's request.
#[derive(Debug)]
pub enum ServerResponse {
    Added { id: u64 },
    Removed { ok: bool },
    Tasks(Vec<TaskInfo>),
    Error(String),
}

} // verus!
