//! The command protocol between an exploring algorithm and the simulator:
//! the commands and requests it sends, how they are queued, and how they
//! are framed on the shared-memory channel.

use vstd::prelude::*;

verus! {

/// A request for information from the simulator.
#[derive(Clone, Copy, Debug, PartialEq, Eq, Structural)]
pub enum Req {
    Pos,
    Obs,
    Free,
    Frontier,
    Scale,
    ViewDist,
    Coverage,
    GridSize,
    Facing,
    Pixbuf,
    PixbufFull,
}

/// A command to the simulator; `F` is the number type of its arguments.
pub enum Cmd<F> {
    Step,
    Rot(F),
    StepBy(F),
    StepBack(F),
    RotBy(F),
    DrawTree(Vec<u32>),
    AddScore,
    StatsTime(F),
    StatsDist(F),
    Stats(F),
    Reset,
    Done,
    Ping,
}

/// A queued command or request; a request carries the channel `S` on
/// which its answer is sent back.
pub enum CmdReq<F, S> {
    CmdStep,
    CmdRot(F),
    CmdStepBy(F),
    CmdStepBack(F),
    CmdRotBy(F),
    CmdDrawTree(Vec<u32>),
    CmdAddScore,
    CmdStatsTime(F),
    CmdStatsDist(F),
    CmdStats(F),
    CmdReset,
    CmdDone,
    CmdPing,
    ReqPos(S),
    ReqObs(S),
    ReqFree(S),
    ReqFrontier(S),
    ReqScale(S),
    ReqViewDist(S),
    ReqCoverage(S),
    ReqGridSize(S),
    ReqFacing(S),
    ReqPixbuf(S),
    ReqPixbufFull(S),
}

/// The queue entry of command `c`: the variant of the same name, with the
/// same argument.
pub open spec fn cmd_entry<F, S>(c: Cmd<F>) -> CmdReq<F, S> {
    match c {
        Cmd::Step => CmdReq::CmdStep,
        Cmd::Rot(x) => CmdReq::CmdRot(x),
        Cmd::StepBy(x) => CmdReq::CmdStepBy(x),
        Cmd::StepBack(x) => CmdReq::CmdStepBack(x),
        Cmd::RotBy(x) => CmdReq::CmdRotBy(x),
        Cmd::DrawTree(x) => CmdReq::CmdDrawTree(x),
        Cmd::AddScore => CmdReq::CmdAddScore,
        Cmd::StatsTime(x) => CmdReq::CmdStatsTime(x),
        Cmd::StatsDist(x) => CmdReq::CmdStatsDist(x),
        Cmd::Stats(x) => CmdReq::CmdStats(x),
        Cmd::Reset => CmdReq::CmdReset,
        Cmd::Done => CmdReq::CmdDone,
        Cmd::Ping => CmdReq::CmdPing,
    }
}

/// The queue entry of request `r` answered on `s`.
pub open spec fn req_entry<F, S>(r: Req, s: S) -> CmdReq<F, S> {
    match r {
        Req::Pos => CmdReq::ReqPos(s),
        Req::Obs => CmdReq::ReqObs(s),
        Req::Free => CmdReq::ReqFree(s),
        Req::Frontier => CmdReq::ReqFrontier(s),
        Req::Scale => CmdReq::ReqScale(s),
        Req::ViewDist => CmdReq::ReqViewDist(s),
        Req::Coverage => CmdReq::ReqCoverage(s),
        Req::GridSize => CmdReq::ReqGridSize(s),
        Req::Facing => CmdReq::ReqFacing(s),
        Req::Pixbuf => CmdReq::ReqPixbuf(s),
        Req::PixbufFull => CmdReq::ReqPixbufFull(s),
    }
}

impl<F, S> CmdReq<F, S> {
    /// The queue entry for a command.
    pub fn from_cmd(c: Cmd<F>) -> (e: Self)
        ensures
            e == cmd_entry::<F, S>(c),
    {
        match c {
            Cmd::Step => CmdReq::CmdStep,
            Cmd::Rot(x) => CmdReq::CmdRot(x),
            Cmd::StepBy(x) => CmdReq::CmdStepBy(x),
            Cmd::StepBack(x) => CmdReq::CmdStepBack(x),
            Cmd::RotBy(x) => CmdReq::CmdRotBy(x),
            Cmd::DrawTree(x) => CmdReq::CmdDrawTree(x),
            Cmd::AddScore => CmdReq::CmdAddScore,
            Cmd::StatsTime(x) => CmdReq::CmdStatsTime(x),
            Cmd::StatsDist(x) => CmdReq::CmdStatsDist(x),
            Cmd::Stats(x) => CmdReq::CmdStats(x),
            Cmd::Reset => CmdReq::CmdReset,
            Cmd::Done => CmdReq::CmdDone,
            Cmd::Ping => CmdReq::CmdPing,
        }
    }

    /// The queue entry for a request whose answer goes to `s`.
    pub fn from_req(r: Req, s: S) -> (e: Self)
        ensures
            e == req_entry::<F, S>(r, s),
    {
        match r {
            Req::Pos => CmdReq::ReqPos(s),
            Req::Obs => CmdReq::ReqObs(s),
            Req::Free => CmdReq::ReqFree(s),
            Req::Frontier => CmdReq::ReqFrontier(s),
            Req::Scale => CmdReq::ReqScale(s),
            Req::ViewDist => CmdReq::ReqViewDist(s),
            Req::Coverage => CmdReq::ReqCoverage(s),
            Req::GridSize => CmdReq::ReqGridSize(s),
            Req::Facing => CmdReq::ReqFacing(s),
            Req::Pixbuf => CmdReq::ReqPixbuf(s),
            Req::PixbufFull => CmdReq::ReqPixbufFull(s),
        }
    }
}

/// The kind of a message on the shared-memory channel, sent as its
/// number in the first slot of the message.
#[derive(Clone, Copy, Debug, PartialEq, Eq, Structural)]
pub enum CmdType {
    Step,
    Rot,
    StepBy,
    StepBack,
    RotBy,
    DrawTree,
    DrawTree2,
    AddScore,
    StatsMem,
    StatsTime,
    StatsDist,
    Stats,
    ImgOut,
    Replace,
    Done,
    Reset,
    ScaleReq,
    PosReq,
    ObsReq,
    FreeReq,
    FrontierReq,
    ViewDistReq,
    CoverageReq,
    FreeGridSizeReq,
    FacingReq,
    PixbufReq,
    Ret,
    Undef,
}

/// The number that stands for a message kind: its position in the list
/// of kinds, from 0.
pub open spec fn kind_number(t: CmdType) -> nat {
    match t {
        CmdType::Step => 0,
        CmdType::Rot => 1,
        CmdType::StepBy => 2,
        CmdType::StepBack => 3,
        CmdType::RotBy => 4,
        CmdType::DrawTree => 5,
        CmdType::DrawTree2 => 6,
        CmdType::AddScore => 7,
        CmdType::StatsMem => 8,
        CmdType::StatsTime => 9,
        CmdType::StatsDist => 10,
        CmdType::Stats => 11,
        CmdType::ImgOut => 12,
        CmdType::Replace => 13,
        CmdType::Done => 14,
        CmdType::Reset => 15,
        CmdType::ScaleReq => 16,
        CmdType::PosReq => 17,
        CmdType::ObsReq => 18,
        CmdType::FreeReq => 19,
        CmdType::FrontierReq => 20,
        CmdType::ViewDistReq => 21,
        CmdType::CoverageReq => 22,
        CmdType::FreeGridSizeReq => 23,
        CmdType::FacingReq => 24,
        CmdType::PixbufReq => 25,
        CmdType::Ret => 26,
        CmdType::Undef => 27,
    }
}

/// How many message kinds there are.
pub const NUM_KINDS: usize = 28;

impl CmdType {
    /// The number of this kind.
    pub fn usize(&self) -> (n: usize)
        ensures
            n == kind_number(*self),
    {
        match *self {
            CmdType::Step => 0,
            CmdType::Rot => 1,
            CmdType::StepBy => 2,
            CmdType::StepBack => 3,
            CmdType::RotBy => 4,
            CmdType::DrawTree => 5,
            CmdType::DrawTree2 => 6,
            CmdType::AddScore => 7,
            CmdType::StatsMem => 8,
            CmdType::StatsTime => 9,
            CmdType::StatsDist => 10,
            CmdType::Stats => 11,
            CmdType::ImgOut => 12,
            CmdType::Replace => 13,
            CmdType::Done => 14,
            CmdType::Reset => 15,
            CmdType::ScaleReq => 16,
            CmdType::PosReq => 17,
            CmdType::ObsReq => 18,
            CmdType::FreeReq => 19,
            CmdType::FrontierReq => 20,
            CmdType::ViewDistReq => 21,
            CmdType::CoverageReq => 22,
            CmdType::FreeGridSizeReq => 23,
            CmdType::FacingReq => 24,
            CmdType::PixbufReq => 25,
            CmdType::Ret => 26,
            CmdType::Undef => 27,
        }
    }

    /// The kind whose number is `n`, if any.
    pub fn from_i64(n: i64) -> (t: Option<CmdType>)
        ensures
            t == kind_of(n as int),
    {
        proof {
            if 0 <= n < NUM_KINDS {
                lemma_kind_of(n as int);
            }
        }
        match n {
            0 => Some(CmdType::Step),
            1 => Some(CmdType::Rot),
            2 => Some(CmdType::StepBy),
            3 => Some(CmdType::StepBack),
            4 => Some(CmdType::RotBy),
            5 => Some(CmdType::DrawTree),
            6 => Some(CmdType::DrawTree2),
            7 => Some(CmdType::AddScore),
            8 => Some(CmdType::StatsMem),
            9 => Some(CmdType::StatsTime),
            10 => Some(CmdType::StatsDist),
            11 => Some(CmdType::Stats),
            12 => Some(CmdType::ImgOut),
            13 => Some(CmdType::Replace),
            14 => Some(CmdType::Done),
            15 => Some(CmdType::Reset),
            16 => Some(CmdType::ScaleReq),
            17 => Some(CmdType::PosReq),
            18 => Some(CmdType::ObsReq),
            19 => Some(CmdType::FreeReq),
            20 => Some(CmdType::FrontierReq),
            21 => Some(CmdType::ViewDistReq),
            22 => Some(CmdType::CoverageReq),
            23 => Some(CmdType::FreeGridSizeReq),
            24 => Some(CmdType::FacingReq),
            25 => Some(CmdType::PixbufReq),
            26 => Some(CmdType::Ret),
            27 => Some(CmdType::Undef),
            _ => None,
        }
    }
}

/// The kind whose number is `n`, when `n` is the number of a kind.
pub open spec fn kind_of(n: int) -> Option<CmdType> {
    if 0 <= n < NUM_KINDS {
        Some(choose|t: CmdType| kind_number(t) == n)
    } else {
        None
    }
}

/// Distinct kinds have distinct numbers, all below `NUM_KINDS`.
proof fn lemma_kind_number_injective(t: CmdType, u: CmdType)
    ensures
        kind_number(t) < NUM_KINDS,
        kind_number(t) == kind_number(u) ==> t == u,
{
}

/// Each number below `NUM_KINDS` is the number of a kind, which `kind_of`
/// picks.
proof fn lemma_kind_of(n: int)
    requires
        0 <= n < NUM_KINDS,
    ensures
        kind_of(n) matches Some(t) && kind_number(t) == n,
{
    let t: CmdType = if n == 0 {
        CmdType::Step
    } else if n == 1 {
        CmdType::Rot
    } else if n == 2 {
        CmdType::StepBy
    } else if n == 3 {
        CmdType::StepBack
    } else if n == 4 {
        CmdType::RotBy
    } else if n == 5 {
        CmdType::DrawTree
    } else if n == 6 {
        CmdType::DrawTree2
    } else if n == 7 {
        CmdType::AddScore
    } else if n == 8 {
        CmdType::StatsMem
    } else if n == 9 {
        CmdType::StatsTime
    } else if n == 10 {
        CmdType::StatsDist
    } else if n == 11 {
        CmdType::Stats
    } else if n == 12 {
        CmdType::ImgOut
    } else if n == 13 {
        CmdType::Replace
    } else if n == 14 {
        CmdType::Done
    } else if n == 15 {
        CmdType::Reset
    } else if n == 16 {
        CmdType::ScaleReq
    } else if n == 17 {
        CmdType::PosReq
    } else if n == 18 {
        CmdType::ObsReq
    } else if n == 19 {
        CmdType::FreeReq
    } else if n == 20 {
        CmdType::FrontierReq
    } else if n == 21 {
        CmdType::ViewDistReq
    } else if n == 22 {
        CmdType::CoverageReq
    } else if n == 23 {
        CmdType::FreeGridSizeReq
    } else if n == 24 {
        CmdType::FacingReq
    } else if n == 25 {
        CmdType::PixbufReq
    } else if n == 26 {
        CmdType::Ret
    } else {
        CmdType::Undef
    };
    assert(kind_number(t) == n);
}

/// A kind's number leads back to that kind, and a number leads to a kind
/// exactly when it is below `NUM_KINDS`, to the kind with that number.
pub proof fn lemma_kind_number_roundtrip(t: CmdType, n: int)
    ensures
        kind_of(kind_number(t) as int) == Some(t),
        kind_of(n) is Some <==> 0 <= n < NUM_KINDS,
        kind_of(n) matches Some(u) ==> kind_number(u) == n,
{
    lemma_kind_of(kind_number(t) as int);
    let u = kind_of(kind_number(t) as int)->0;
    lemma_kind_number_injective(t, u);
    if 0 <= n < NUM_KINDS {
        lemma_kind_of(n);
    }
}

/// The kind and the single argument, if any, of the message that carries
/// command `c`; a tree drawing has no message of its own on the channel.
pub open spec fn spec_cmd_header<F>(c: Cmd<F>) -> Option<(CmdType, Option<F>)> {
    match c {
        Cmd::Step => Some((CmdType::Step, None)),
        Cmd::Rot(x) => Some((CmdType::Rot, Some(x))),
        Cmd::StepBy(x) => Some((CmdType::StepBy, Some(x))),
        Cmd::StepBack(x) => Some((CmdType::StepBack, Some(x))),
        Cmd::RotBy(x) => Some((CmdType::RotBy, Some(x))),
        Cmd::DrawTree(_) => None,
        Cmd::AddScore => Some((CmdType::AddScore, None)),
        Cmd::StatsTime(x) => Some((CmdType::StatsTime, Some(x))),
        Cmd::StatsDist(x) => Some((CmdType::StatsDist, Some(x))),
        Cmd::Stats(x) => Some((CmdType::Stats, Some(x))),
        Cmd::Reset => Some((CmdType::Reset, None)),
        Cmd::Done => Some((CmdType::Done, None)),
        Cmd::Ping => Some((CmdType::Undef, None)),
    }
}

/// The kind and argument of the message that carries command `c`. The
/// message is the kind's number, then how many arguments follow (0 or 1),
/// then the argument.
pub fn cmd_header<F: Copy>(c: &Cmd<F>) -> (h: Option<(CmdType, Option<F>)>)
    ensures
        h == spec_cmd_header(*c),
{
    match c {
        Cmd::Step => Some((CmdType::Step, None)),
        Cmd::Rot(x) => Some((CmdType::Rot, Some(*x))),
        Cmd::StepBy(x) => Some((CmdType::StepBy, Some(*x))),
        Cmd::StepBack(x) => Some((CmdType::StepBack, Some(*x))),
        Cmd::RotBy(x) => Some((CmdType::RotBy, Some(*x))),
        Cmd::DrawTree(_) => None,
        Cmd::AddScore => Some((CmdType::AddScore, None)),
        Cmd::StatsTime(x) => Some((CmdType::StatsTime, Some(*x))),
        Cmd::StatsDist(x) => Some((CmdType::StatsDist, Some(*x))),
        Cmd::Stats(x) => Some((CmdType::Stats, Some(*x))),
        Cmd::Reset => Some((CmdType::Reset, None)),
        Cmd::Done => Some((CmdType::Done, None)),
        Cmd::Ping => Some((CmdType::Undef, None)),
    }
}

/// The kind of the message that carries request `r`, and the flag in its
/// second slot (1 only for the full pixel buffer).
pub open spec fn spec_req_header(r: Req) -> (CmdType, usize) {
    match r {
        Req::Scale => (CmdType::ScaleReq, 0),
        Req::Pos => (CmdType::PosReq, 0),
        Req::Obs => (CmdType::ObsReq, 0),
        Req::Free => (CmdType::FreeReq, 0),
        Req::Frontier => (CmdType::FrontierReq, 0),
        Req::ViewDist => (CmdType::ViewDistReq, 0),
        Req::Coverage => (CmdType::CoverageReq, 0),
        Req::GridSize => (CmdType::FreeGridSizeReq, 0),
        Req::Facing => (CmdType::FacingReq, 0),
        Req::Pixbuf => (CmdType::PixbufReq, 0),
        Req::PixbufFull => (CmdType::PixbufReq, 1),
    }
}

/// The kind and flag of the message that carries request `r`.
pub fn req_header(r: Req) -> (h: (CmdType, usize))
    ensures
        h == spec_req_header(r),
{
    match r {
        Req::Scale => (CmdType::ScaleReq, 0),
        Req::Pos => (CmdType::PosReq, 0),
        Req::Obs => (CmdType::ObsReq, 0),
        Req::Free => (CmdType::FreeReq, 0),
        Req::Frontier => (CmdType::FrontierReq, 0),
        Req::ViewDist => (CmdType::ViewDistReq, 0),
        Req::Coverage => (CmdType::CoverageReq, 0),
        Req::GridSize => (CmdType::FreeGridSizeReq, 0),
        Req::Facing => (CmdType::FacingReq, 0),
        Req::Pixbuf => (CmdType::PixbufReq, 0),
        Req::PixbufFull => (CmdType::PixbufReq, 1),
    }
}

/// The payload of an answer whose first slot says that `n` values follow:
/// slots `1..=n`.
pub fn payload<T: Copy>(resp: &Vec<T>, n: usize) -> (out: Vec<T>)
    requires
        n < resp.len(),
    ensures
        out@ == resp@.subrange(1, n + 1),
{
    let mut out: Vec<T> = Vec::new();
    let mut i: usize = 1;
    while i <= n
        invariant
            1 <= i <= n + 1,
            n < resp.len(),
            out@ == resp@.subrange(1, i as int),
        decreases n + 1 - i,
    {
        out.push(resp[i]);
        i = i + 1;
        proof {
            assert(out@ =~= resp@.subrange(1, i as int));
        }
    }
    out
}

/// The arguments of a message whose second slot says `n`: slots `2..=n`.
pub fn message_args<T: Copy>(msg: &Vec<T>, n: usize) -> (out: Vec<T>)
    requires
        1 <= n < msg.len(),
    ensures
        out@ == msg@.subrange(2, n + 1),
{
    let mut out: Vec<T> = Vec::new();
    let mut i: usize = 2;
    while i <= n
        invariant
            2 <= i <= n + 1,
            n < msg.len(),
            out@ == msg@.subrange(2, i as int),
        decreases n + 1 - i,
    {
        out.push(msg[i]);
        i = i + 1;
        proof {
            assert(out@ =~= msg@.subrange(2, i as int));
        }
    }
    out
}

/// A message framed for the channel: its length first, then its values.
pub fn framed<T: Copy>(len: T, data: &Vec<T>) -> (out: Vec<T>)
    ensures
        out@ == seq![len] + data@,
{
    let mut out: Vec<T> = Vec::new();
    out.push(len);
    let mut i: usize = 0;
    while i < data.len()
        invariant
            i <= data.len(),
            out@ == seq![len] + data@.subrange(0, i as int),
        decreases data.len() - i,
    {
        out.push(data[i]);
        i = i + 1;
        proof {
            assert(out@ =~= seq![len] + data@.subrange(0, i as int));
        }
    }
    proof {
        assert(data@.subrange(0, data.len() as int) =~= data@);
    }
    out
}

} // verus!
