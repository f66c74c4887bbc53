use vstd::prelude::*;
use vstd::string::StringSliceAdditionalSpecFns;

use crate::selection::{spec_tokens, tokenize, Token};

verus! {

/// Number of distinct 13-bit packet identifiers.
pub const MAX_PID: usize = 8192;

/// Size in bytes of one transport packet.
pub const LENGTH_PACKET: usize = 188;

/// The PID-to-version association for the tracked PMTs, in the order the
/// PAT analysis registered them.
pub struct PmtVersion {
    /// PID of each tracked PMT.
    pub pid: Vec<u16>,
    /// Last seen version field of each tracked PMT.
    pub version: Vec<u8>,
}

/// The long-lived state of one stream selection.
pub struct Splitter {
    /// Retention mark per PID: `0` drops the packet, any other value keeps
    /// it. `2` marks a PID kept by a rescan pass that has not yet been
    /// reconciled; `1` marks a confirmed PID.
    pub pids: Vec<u16>,
    /// Tracking state per PID: `0` not a tracked PMT, `1` selected but not
    /// yet parsed, `2` parsed at least once.
    pub pmt_pids: Vec<u16>,
    pub pat: Option<Vec<u8>>,
    pub pat_count: u8,
    pub sel: Vec<Token>,
    pub pmt_retain: usize,
    pub pmt_counter: usize,
    pub pmt_version: PmtVersion,
    pub section_remain: Vec<u16>,
    pub packet_seq: Vec<u8>,
}

/// The mathematical state of a [`Splitter`].
#[verifier::ext_equal]
pub ghost struct SplitterModel {
    pub pids: Seq<u16>,
    pub pmt_pids: Seq<u16>,
    /// The cached rebuilt PAT packet, once the PAT has been analyzed.
    pub pat: Option<Seq<u8>>,
    /// Continuity-counter byte written into each emitted PAT packet; it
    /// advances on every emission and starts at zero.
    pub pat_count: u8,
    /// The parsed selection expression.
    pub sel: Seq<Token>,
    /// Number of PMTs that must parse before the selection is ready.
    pub pmt_retain: int,
    /// Number of PMTs parsed in the current pass.
    pub pmt_counter: int,
    /// PIDs of the tracked PMTs, in registration order.
    pub ver_pid: Seq<u16>,
    /// Last seen version field of each tracked PMT.
    pub ver_val: Seq<u8>,
    /// Remaining byte count of an in-progress section, per PID.
    pub section_remain: Seq<u16>,
    /// Last seen continuity counter, per PID.
    pub packet_seq: Seq<u8>,
}

impl View for Splitter {
    type V = SplitterModel;

    open spec fn view(&self) -> SplitterModel {
        SplitterModel {
            pids: self.pids@,
            pmt_pids: self.pmt_pids@,
            pat: match self.pat {
                Some(p) => Some(p@),
                None => None,
            },
            pat_count: self.pat_count,
            sel: self.sel@,
            pmt_retain: self.pmt_retain as int,
            pmt_counter: self.pmt_counter as int,
            ver_pid: self.pmt_version.pid@,
            ver_val: self.pmt_version.version@,
            section_remain: self.section_remain@,
            packet_seq: self.packet_seq@,
        }
    }
}

/// Well-formedness of a splitter state: the per-PID tables cover the whole
/// 13-bit PID range, the cached PAT is one whole packet, and the version
/// association holds exactly one slot per tracked PMT.
pub open spec fn wf_model(m: SplitterModel) -> bool {
    &&& m.pids.len() == MAX_PID
    &&& m.pmt_pids.len() == MAX_PID
    &&& m.section_remain.len() == MAX_PID
    &&& m.packet_seq.len() == MAX_PID
    &&& match m.pat {
        Some(p) => p.len() == LENGTH_PACKET,
        None => true,
    }
    &&& m.ver_pid.len() == m.pmt_retain
    &&& m.ver_val.len() == m.pmt_retain
    &&& 0 <= m.pmt_retain <= usize::MAX
    &&& 0 <= m.pmt_counter <= usize::MAX
}

/// The selection is complete: the PAT has been analyzed and every expected
/// PMT of the current pass has been parsed.
pub open spec fn spec_ready(m: SplitterModel) -> bool {
    m.pat is Some && m.pmt_counter == m.pmt_retain
}

impl Splitter {
    /// Well-formedness of this splitter state.
    pub open spec fn wf(&self) -> bool {
        wf_model(self@)
    }

    /// Whether the selection is complete and filtering may begin.
    pub fn is_ready(&self) -> (r: bool)
        ensures
            r == spec_ready(self@),
    {
        self.pat.is_some() && self.pmt_counter == self.pmt_retain
    }

    /// The cached rebuilt PAT packet, once built.
    pub fn cached_pat(&self) -> (r: Option<Vec<u8>>)
        ensures
            match r {
                Some(p) => self@.pat == Some(p@),
                None => self@.pat is None,
            },
    {
        match &self.pat {
            Some(p) => Some(p.clone()),
            None => None,
        }
    }

    /// Number of PMTs the selection expects to parse.
    pub fn pmt_retain(&self) -> (r: usize)
        ensures
            r == self@.pmt_retain,
    {
        self.pmt_retain
    }

    /// Number of PMTs parsed in the current pass.
    pub fn pmt_counter(&self) -> (r: usize)
        ensures
            r == self@.pmt_counter,
    {
        self.pmt_counter
    }
}

/// The state of a freshly created splitter: empty tables, no cached PAT,
/// and the given selection.
pub open spec fn initial_model(sel: Seq<Token>) -> SplitterModel {
    SplitterModel {
        pids: Seq::new(MAX_PID as nat, |i: int| 0u16),
        pmt_pids: Seq::new(MAX_PID as nat, |i: int| 0u16),
        pat: None,
        pat_count: 0,
        sel: sel,
        pmt_retain: 0,
        pmt_counter: 0,
        ver_pid: Seq::empty(),
        ver_val: Seq::empty(),
        section_remain: Seq::new(MAX_PID as nat, |i: int| 0u16),
        packet_seq: Seq::new(MAX_PID as nat, |i: int| 0u8),
    }
}

fn zeros_u16(n: usize) -> (r: Vec<u16>)
    ensures
        r@ == Seq::new(n as nat, |i: int| 0u16),
{
    let mut r: Vec<u16> = Vec::new();
    let mut i: usize = 0;
    while i < n
        invariant
            i <= n,
            r@ =~= Seq::new(i as nat, |k: int| 0u16),
        decreases n - i,
    {
        r.push(0);
        i = i + 1;
    }
    proof {
        assert(r@ =~= Seq::new(n as nat, |k: int| 0u16));
    }
    r
}

fn zeros_u8(n: usize) -> (r: Vec<u8>)
    ensures
        r@ == Seq::new(n as nat, |i: int| 0u8),
{
    let mut r: Vec<u8> = Vec::new();
    let mut i: usize = 0;
    while i < n
        invariant
            i <= n,
            r@ =~= Seq::new(i as nat, |k: int| 0u8),
        decreases n - i,
    {
        r.push(0);
        i = i + 1;
    }
    proof {
        assert(r@ =~= Seq::new(n as nat, |k: int| 0u8));
    }
    r
}

/// Creates the splitter state for one selection expression.
///
/// The expression is a comma-separated token list; see [`Token`] for the
/// accepted tokens. It is fixed for the life of the state.
pub fn split_startup(sid: &str) -> (sp: Splitter)
    ensures
        sp.wf(),
        sp@ == initial_model(spec_tokens(sid.spec_bytes())),
{
    let sel = tokenize(sid.as_bytes());
    let sp = Splitter {
        pids: zeros_u16(MAX_PID),
        pmt_pids: zeros_u16(MAX_PID),
        pat: None,
        pat_count: 0,
        sel,
        pmt_retain: 0,
        pmt_counter: 0,
        pmt_version: PmtVersion { pid: Vec::new(), version: Vec::new() },
        section_remain: zeros_u16(MAX_PID),
        packet_seq: zeros_u8(MAX_PID),
    };
    proof {
        assert(sp@.ver_pid =~= Seq::<u16>::empty());
        assert(sp@.ver_val =~= Seq::<u8>::empty());
    }
    sp
}

} // verus!
