//! What the panel shows.

use vstd::prelude::*;

use crate::rate::Rate;

verus! {

/// The speed of one process, for the list of tasks.
#[derive(Debug)]
pub struct TaskStat {
    /// The process.
    pub pid: u32,
    /// The first session in progress that it serves; empty if none.
    pub session: String,
    /// How many sessions in progress it serves.
    pub n_sessions: u32,
    /// Its speed.
    pub tps: Rate,
    /// It is streaming.
    pub streaming: bool,
}

/// A [`TaskStat`] with texts as their characters.
pub struct TaskStatView {
    pub pid: u32,
    pub session: Seq<char>,
    pub n_sessions: u32,
    pub tps: Rate,
    pub streaming: bool,
}

impl View for TaskStat {
    type V = TaskStatView;

    open spec fn view(&self) -> TaskStatView {
        TaskStatView {
            pid: self.pid,
            session: self.session@,
            n_sessions: self.n_sessions,
            tps: self.tps,
            streaming: self.streaming,
        }
    }
}

/// A connection and the process that has it.
#[derive(Debug, PartialEq, Eq)]
pub struct ConnStat {
    /// Address and port at the other end.
    pub remote: String,
    /// The process.
    pub pid: u32,
    /// What kind of process it is.
    pub proc: String,
}

/// A [`ConnStat`] with texts as their characters.
pub struct ConnView {
    pub remote: Seq<char>,
    pub pid: u32,
    pub proc: Seq<char>,
}

impl View for ConnStat {
    type V = ConnView;

    open spec fn view(&self) -> ConnView {
        ConnView { remote: self.remote@, pid: self.pid, proc: self.proc@ }
    }
}

impl Clone for ConnStat {
    fn clone(&self) -> (r: Self)
        ensures
            r@ == self@,
    {
        ConnStat { remote: self.remote.clone(), pid: self.pid, proc: self.proc.clone() }
    }
}

/// The latest snapshot of a workspace.
#[derive(Debug, PartialEq, Eq)]
pub struct CkptStat {
    /// Name of the workspace.
    pub workspace: String,
    /// Bytes of the snapshot.
    pub bytes: u64,
    /// When it was recorded; zero if that is not known.
    pub recorded_ms: i64,
    /// The server has accepted it.
    pub accepted: bool,
    /// It is being uploaded.
    pub uploading: bool,
    /// Directory of the workspace; archived rows may lack it.
    pub hash: Option<String>,
}

/// A [`CkptStat`] with texts as their characters.
pub struct CkptView {
    pub workspace: Seq<char>,
    pub bytes: u64,
    pub recorded_ms: i64,
    pub accepted: bool,
    pub uploading: bool,
    pub hash: Option<Seq<char>>,
}

/// The characters of a text that may be missing.
pub open spec fn opt_text(s: Option<String>) -> Option<Seq<char>> {
    match s {
        Some(t) => Some(t@),
        None => None,
    }
}

impl View for CkptStat {
    type V = CkptView;

    open spec fn view(&self) -> CkptView {
        CkptView {
            workspace: self.workspace@,
            bytes: self.bytes,
            recorded_ms: self.recorded_ms,
            accepted: self.accepted,
            uploading: self.uploading,
            hash: opt_text(self.hash),
        }
    }
}

/// A copy of a text that may be missing.
pub fn copy_opt(s: &Option<String>) -> (r: Option<String>)
    ensures
        opt_text(r) == opt_text(*s),
{
    match s {
        Some(t) => Some(t.clone()),
        None => None,
    }
}

impl Clone for CkptStat {
    fn clone(&self) -> (r: Self)
        ensures
            r@ == self@,
    {
        CkptStat {
            workspace: self.workspace.clone(),
            bytes: self.bytes,
            recorded_ms: self.recorded_ms,
            accepted: self.accepted,
            uploading: self.uploading,
            hash: copy_opt(&self.hash),
        }
    }
}

/// The rows without their representation.
pub open spec fn ckpts_view(rows: Seq<CkptStat>) -> Seq<CkptView> {
    rows.map_values(|r: CkptStat| r@)
}

/// The connections without their representation.
pub open spec fn conns_view(rows: Seq<ConnStat>) -> Seq<ConnView> {
    rows.map_values(|r: ConnStat| r@)
}

/// A copy of a list of rows.
pub fn copy_ckpts(rows: &Vec<CkptStat>) -> (r: Vec<CkptStat>)
    ensures
        ckpts_view(r@) == ckpts_view(rows@),
{
    let mut out: Vec<CkptStat> = Vec::new();
    for i in 0..rows.len()
        invariant
            out@.len() == i,
            forall|k: int| 0 <= k < i ==> (#[trigger] out@[k])@ == rows@[k]@,
    {
        out.push(rows[i].clone());
    }
    assert(ckpts_view(out@) =~= ckpts_view(rows@));
    out
}

/// The state of network traffic that the panel shows.
#[derive(Debug)]
pub struct NetFigures {
    /// The counters of the interfaces can be read.
    pub available: bool,
    /// Bytes sent over a time.
    pub up_bps: Rate,
    /// Bytes received over a time.
    pub down_bps: Rate,
    /// Bytes sent today.
    pub up_today: u64,
    /// Bytes received today.
    pub down_today: u64,
    /// Estimated bytes of the requests of today.
    pub sess_up_today: u64,
    /// Estimated bytes of the answers of today.
    pub sess_down_today: u64,
    /// Bytes of the snapshots that were accepted today.
    pub ckpt_today: u64,
    /// Number of the snapshots that were accepted today.
    pub ckpt_today_count: u32,
    /// The snapshots that were accepted today.
    pub ckpt_today_list: Vec<CkptStat>,
    /// A snapshot is being uploaded.
    pub ckpt_uploading: bool,
    /// Whether the directory of the snapshots can be read.
    pub ckpt_status: String,
    /// The latest snapshot of each workspace.
    pub ckpt_list: Vec<CkptStat>,
    /// Connections can be told by their process.
    pub conns_available: bool,
    /// Connections of session processes.
    pub cli_conns: u32,
    /// Connections of other processes of the application.
    pub app_conns: u32,
    /// Connections of session processes.
    pub cli_conn_list: Vec<ConnStat>,
    /// Connections of other processes of the application.
    pub app_conn_list: Vec<ConnStat>,
}

/// A [`NetFigures`] without its representation.
#[verifier::ext_equal]
pub struct NetView {
    pub available: bool,
    pub up_bps: Rate,
    pub down_bps: Rate,
    pub up_today: u64,
    pub down_today: u64,
    pub sess_up_today: u64,
    pub sess_down_today: u64,
    pub ckpt_today: u64,
    pub ckpt_today_count: u32,
    pub ckpt_today_list: Seq<CkptView>,
    pub ckpt_uploading: bool,
    pub ckpt_status: Seq<char>,
    pub ckpt_list: Seq<CkptView>,
    pub conns_available: bool,
    pub cli_conns: u32,
    pub app_conns: u32,
    pub cli_conn_list: Seq<ConnView>,
    pub app_conn_list: Seq<ConnView>,
}

impl View for NetFigures {
    type V = NetView;

    open spec fn view(&self) -> NetView {
        NetView {
            available: self.available,
            up_bps: self.up_bps,
            down_bps: self.down_bps,
            up_today: self.up_today,
            down_today: self.down_today,
            sess_up_today: self.sess_up_today,
            sess_down_today: self.sess_down_today,
            ckpt_today: self.ckpt_today,
            ckpt_today_count: self.ckpt_today_count,
            ckpt_today_list: ckpts_view(self.ckpt_today_list@),
            ckpt_uploading: self.ckpt_uploading,
            ckpt_status: self.ckpt_status@,
            ckpt_list: ckpts_view(self.ckpt_list@),
            conns_available: self.conns_available,
            cli_conns: self.cli_conns,
            app_conns: self.app_conns,
            cli_conn_list: conns_view(self.cli_conn_list@),
            app_conn_list: conns_view(self.app_conn_list@),
        }
    }
}

impl NetView {
    /// Nothing is known of the network.
    pub open spec fn none() -> NetView {
        NetView {
            available: false,
            up_bps: Rate::none(),
            down_bps: Rate::none(),
            up_today: 0,
            down_today: 0,
            sess_up_today: 0,
            sess_down_today: 0,
            ckpt_today: 0,
            ckpt_today_count: 0,
            ckpt_today_list: Seq::empty(),
            ckpt_uploading: false,
            ckpt_status: Seq::empty(),
            ckpt_list: Seq::empty(),
            conns_available: false,
            cli_conns: 0,
            app_conns: 0,
            cli_conn_list: Seq::empty(),
            app_conn_list: Seq::empty(),
        }
    }
}

impl NetFigures {
    /// Nothing is known of the network.
    pub fn none() -> (r: Self)
        ensures
            r@ == NetView::none(),
    {
        let r = NetFigures {
            available: false,
            up_bps: Rate::zero(),
            down_bps: Rate::zero(),
            up_today: 0,
            down_today: 0,
            sess_up_today: 0,
            sess_down_today: 0,
            ckpt_today: 0,
            ckpt_today_count: 0,
            ckpt_today_list: Vec::new(),
            ckpt_uploading: false,
            ckpt_status: String::new(),
            ckpt_list: Vec::new(),
            conns_available: false,
            cli_conns: 0,
            app_conns: 0,
            cli_conn_list: Vec::new(),
            app_conn_list: Vec::new(),
        };
        assert(r@ =~= NetView::none());
        r
    }
}

/// What the panel shows at a moment.
#[derive(Debug)]
pub struct Snapshot {
    /// The speed now.
    pub current_tps: Rate,
    /// The average speed of today.
    pub avg_tps: Rate,
    /// Tokens of today: output, reasoning, input and what was written to the cache.
    pub total_tokens: u64,
    /// Tokens of answers today.
    pub output_tokens: u64,
    /// Tokens of reasoning today.
    pub reasoning_tokens: u64,
    /// Tokens of prompts today.
    pub input_tokens: u64,
    /// Tokens written to the prompt cache today.
    pub cache_creation_tokens: u64,
    /// Tokens read from the prompt cache today.
    pub cache_read_tokens: u64,
    /// Calls of today.
    pub calls_today: u64,
    /// Sessions of today.
    pub sessions_today: u64,
    /// The speed is measured live.
    pub is_live: bool,
    /// A call is taken to be still generating, at the speed of the recent ones.
    pub is_estimating: bool,
    /// The span of the live average is not full yet.
    pub ramping: bool,
    /// A call has started and nothing has streamed yet.
    pub is_starting: bool,
    /// The speed of the calls of the last minutes.
    pub window_tps: Rate,
    /// The speed of the latest call.
    pub last_call_tps: Rate,
    /// The fastest call of the history.
    pub hist_max_tps: Rate,
    /// The average speed of the history.
    pub hist_avg_tps: Rate,
    /// Where the current speed comes from: `io`, `window` or `idle`.
    pub live_source: String,
    /// When the latest call was completed.
    pub last_activity_ms: i64,
    /// The moment.
    pub now_ms: i64,
    /// Where the calls are read from.
    pub rollout_dir: String,
    /// The speed over the last minutes, the newest last.
    pub spark: Vec<Rate>,
    /// What each process contributes.
    pub tasks: Vec<TaskStat>,
    /// The network.
    pub net: NetFigures,
}

} // verus!
