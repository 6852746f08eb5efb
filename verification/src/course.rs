//! What holds of a conversion from its start to its end.

use crate::commands::{assembling, path, timed};
use crate::frames::delay_of;
use crate::names::{lemma_selected_kind, Kind};
use crate::run::{
    coherent, failure, leads, made, of_frame, start, wanted, Deed, Heard, Job, Phase, Position,
};
use crate::text::digits_of;
use vstd::prelude::*;

verus! {

/// The order of the stages; those of a frame count as one.
pub open spec fn stage(phase: Phase) -> int {
    match phase {
        Phase::Extract => 0,
        Phase::Delays => 1,
        Phase::ListFrames => 2,
        Phase::ListTexts => 4,
        Phase::Label => 5,
        Phase::ListImages => 6,
        Phase::Assemble => 7,
        Phase::CleanUp => 8,
        Phase::Done => 9,
        _ => 3,
    }
}

/// How many stages of a frame are left after this one.
pub open spec fn stages_left(phase: Phase) -> int {
    match phase {
        Phase::Measure => 6,
        Phase::Resize => 5,
        Phase::Dump => 4,
        Phase::Read => 3,
        Phase::Save => 2,
        Phase::DropResized => 1,
        _ => 0,
    }
}

/// How many steps are left of a stage that is passed more than once.
pub open spec fn steps_left(at: Position) -> int {
    if of_frame(at.phase) {
        (at.frames.len() - at.index) * 7 + stages_left(at.phase)
    } else if at.phase == Phase::Label {
        at.texts.len() - at.index
    } else {
        0
    }
}

/// Every step leads to a later stage, or leaves fewer steps of the same: a conversion ends.
pub proof fn lemma_steps_end(job: Job, at: Position, heard: Heard, next: Position)
    requires
        coherent(at),
        leads(job, at, heard, next),
    ensures
        coherent(next),
        stage(at.phase) < stage(next.phase) || (stage(at.phase) == stage(next.phase) && 0
            <= steps_left(next) < steps_left(at)),
{
    match (at.phase, heard) {
        (Phase::ListFrames, Heard::Names(names)) => {
            lemma_selected_kind(next.frames, names, Kind::Png);
        },
        _ => {},
    }
}

/// The positions that a conversion passes through, with the reply that leads from each to the
/// next.
pub open spec fn course(job: Job, ps: Seq<Position>, hs: Seq<Heard>) -> bool {
    &&& ps.len() == hs.len() + 1
    &&& ps[0] == start(job)
    &&& forall|i: int|
        0 <= i < hs.len() ==> failure(job, ps[i], #[trigger] hs[i]) is None && leads(
            job,
            ps[i],
            hs[i],
            ps[i + 1],
        )
}

/// Before step `n`, what frame `k` had been made into was to be saved.
pub open spec fn saved(ps: Seq<Position>, n: int, frames: Seq<Seq<char>>, k: int) -> bool {
    exists|j: int|
        0 <= j < n && (#[trigger] ps[j]).phase == Phase::Save && ps[j].index == k && ps[j].frames
            == frames
}

/// The frames before the one that is being worked on have been saved.
pub open spec fn kept_up(ps: Seq<Position>, i: int) -> bool {
    let at = ps[i];
    &&& coherent(at)
    &&& of_frame(at.phase) ==> forall|k: int| 0 <= k < at.index ==> saved(ps, i, at.frames, k)
    &&& at.phase == Phase::DropResized || at.phase == Phase::DropDump ==> saved(
        ps,
        i,
        at.frames,
        at.index,
    )
    &&& stage(at.phase) > 3 ==> forall|k: int|
        0 <= k < at.frames.len() ==> saved(ps, i, at.frames, k)
}

/// Work on the frames keeps up at every step.
proof fn lemma_kept_up(job: Job, ps: Seq<Position>, hs: Seq<Heard>, i: int)
    requires
        course(job, ps, hs),
        0 <= i < ps.len(),
    ensures
        kept_up(ps, i),
    decreases i,
{
    if i > 0 {
        lemma_kept_up(job, ps, hs, i - 1);
        let (at, heard, next) = (ps[i - 1], hs[i - 1], ps[i]);
        assert(leads(job, at, heard, next));
        lemma_steps_end(job, at, heard, next);
        assert forall|frames: Seq<Seq<char>>, k: int|
            saved(ps, i - 1, frames, k) implies #[trigger] saved(ps, i, frames, k) by {
            let j = choose|j: int|
                0 <= j < i - 1 && (#[trigger] ps[j]).phase == Phase::Save && ps[j].index == k
                    && ps[j].frames == frames;
            assert(0 <= j < i && ps[j].phase == Phase::Save);
        }
        if at.phase == Phase::Save {
            assert(saved(ps, i, next.frames, next.index)) by {
                assert(ps[i - 1].phase == Phase::Save);
            }
        }
    }
}

/// When a conversion is done, every frame has been made into something that was to be saved.
pub proof fn lemma_every_frame_saved(job: Job, ps: Seq<Position>, hs: Seq<Heard>, k: int)
    requires
        course(job, ps, hs),
        ps.last().phase == Phase::Done,
        0 <= k < ps.last().frames.len(),
    ensures
        saved(ps, ps.len() - 1, ps.last().frames, k),
{
    lemma_kept_up(job, ps, hs, ps.len() - 1);
}

/// A conversion removes its working directory only where its files are not to be kept.
pub proof fn lemma_kept(job: Job, ps: Seq<Position>, hs: Seq<Heard>, i: int)
    requires
        course(job, ps, hs),
        0 <= i < ps.len(),
        wanted(job, ps[i]) is RemoveAll,
    ensures
        !job.keep,
        wanted(job, ps[i]) == Deed::RemoveAll(job.working@),
{
    if i > 0 {
        assert(leads(job, ps[i - 1], hs[i - 1], ps[i]));
    }
}

/// What is saved of a frame is what its pixels are made into.
pub proof fn lemma_saved_is_made(job: Job, ps: Seq<Position>, hs: Seq<Heard>, i: int)
    requires
        course(job, ps, hs),
        0 <= i < ps.len(),
        ps[i].phase == Phase::Save,
    ensures
        i > 0,
        hs[i - 1] matches Heard::Bytes(bytes) && ps[i].product == made(job.mode, bytes),
{
    assert(i > 0);
    assert(leads(job, ps[i - 1], hs[i - 1], ps[i]));
}

/// Each picture takes up three arguments.
proof fn lemma_timed(dir: Seq<char>, pictures: Seq<Seq<char>>, delays: Seq<u32>, n: int, i: int)
    requires
        0 <= i < n,
    ensures
        timed(dir, pictures, delays, n).len() == 3 * n,
        timed(dir, pictures, delays, n)[3 * i] == "-delay"@,
        timed(dir, pictures, delays, n)[3 * i + 1] == digits_of(delay_of(delays, i) as nat),
        timed(dir, pictures, delays, n)[3 * i + 2] == path(dir, pictures[i]),
    decreases n,
{
    if n > 1 {
        lemma_timed(dir, pictures, delays, n - 1, if i < n - 1 { i } else { 0 });
    } else {
        assert(timed(dir, pictures, delays, 0).len() == 0);
    }
}

/// Every picture goes into the animation in its place, after its own delay or, where it has
/// none, the average.
pub proof fn lemma_assembled(
    dir: Seq<char>,
    pictures: Seq<Seq<char>>,
    delays: Seq<u32>,
    size: Option<(u32, u32)>,
    output: Seq<char>,
    i: int,
)
    requires
        0 <= i < pictures.len(),
    ensures
        ({
            let args = assembling(dir, pictures, delays, size, output);
            &&& args[2 + 3 * i] == "-delay"@
            &&& args[3 + 3 * i] == digits_of(delay_of(delays, i) as nat)
            &&& args[4 + 3 * i] == path(dir, pictures[i])
            &&& args.last() == output
        }),
{
    lemma_timed(dir, pictures, delays, pictures.len() as int, i);
}

} // verus!
