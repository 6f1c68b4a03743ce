//! The decode timeline: a few timestamps for every coded frame, and the
//! table they are written out as.
//!
//! Every timestamp is handed in, in microseconds; nothing here reads a clock.
use vstd::prelude::*;

pub mod table;

verus! {

/// Stands for no frame.
pub const NO_FRAME: usize = usize::MAX;

/// The header line of the table.
pub const HEADER: &'static str =
    "TL_HDR\tidx\ttype\tshow\tsubmit\tstart\trefs_ready\thdr_done\ttile_done\trecon_done\tfilters_done\tslot_fulfil\tgrain_done\toutput\twait_slot\twait_owner\twait_us\tpipe\tdeps\n";

/// The phases of a frame that are marked while it is decoded.
#[derive(Clone, Copy, PartialEq, Eq, Structural, Debug)]
pub enum Phase {
    /// Every reference is there.
    RefsReady,
    /// The header is parsed.
    HdrDone,
    /// The tiles are parsed.
    TileDone,
    /// The frame is reconstructed.
    ReconDone,
    /// The loop filters are done.
    FiltersDone,
    /// The reference slot is filled.
    SlotFulfil,
    /// The film grain is added.
    GrainDone,
}

/// One coded frame's timestamps; zero where a phase was never reached.
pub struct Rec {
    /// Whether anything was recorded.
    pub used: bool,
    /// The frame type.
    pub ftype: char,
    /// Whether the frame is shown.
    pub show: bool,
    /// When the job was queued.
    pub submit: u64,
    /// When a worker took it.
    pub start: u64,
    /// When every reference was there.
    pub refs_ready: u64,
    /// When the header was parsed.
    pub hdr_done: u64,
    /// When the tiles were parsed.
    pub tile_done: u64,
    /// When the frame was reconstructed.
    pub recon_done: u64,
    /// When the loop filters were done.
    pub filters_done: u64,
    /// When the reference slot was filled.
    pub slot_fulfil: u64,
    /// When the film grain was added.
    pub grain_done: u64,
    /// When the picture was put out.
    pub output: u64,
    /// The slot that the frame waited on longest, or -1.
    pub wait_slot: i32,
    /// The frame that filled that slot, or -1.
    pub wait_owner: i64,
    /// How long it waited.
    pub wait_us: u64,
    /// The frames that filled the slots it waited on.
    pub deps: Vec<usize>,
    /// Whether its filters ran row by row behind the reconstruction.
    pub pipe: bool,
}

/// What a [`Rec`] holds.
pub struct RecView {
    pub used: bool,
    pub ftype: char,
    pub show: bool,
    pub submit: u64,
    pub start: u64,
    pub refs_ready: u64,
    pub hdr_done: u64,
    pub tile_done: u64,
    pub recon_done: u64,
    pub filters_done: u64,
    pub slot_fulfil: u64,
    pub grain_done: u64,
    pub output: u64,
    pub wait_slot: i32,
    pub wait_owner: i64,
    pub wait_us: u64,
    pub deps: Seq<usize>,
    pub pipe: bool,
}

impl View for Rec {
    type V = RecView;

    open spec fn view(&self) -> RecView {
        RecView {
            used: self.used,
            ftype: self.ftype,
            show: self.show,
            submit: self.submit,
            start: self.start,
            refs_ready: self.refs_ready,
            hdr_done: self.hdr_done,
            tile_done: self.tile_done,
            recon_done: self.recon_done,
            filters_done: self.filters_done,
            slot_fulfil: self.slot_fulfil,
            grain_done: self.grain_done,
            output: self.output,
            wait_slot: self.wait_slot,
            wait_owner: self.wait_owner,
            wait_us: self.wait_us,
            deps: self.deps@,
            pipe: self.pipe,
        }
    }
}

/// A frame of which nothing is recorded yet.
pub open spec fn blank() -> RecView {
    RecView {
        used: false,
        ftype: '\0',
        show: false,
        submit: 0,
        start: 0,
        refs_ready: 0,
        hdr_done: 0,
        tile_done: 0,
        recon_done: 0,
        filters_done: 0,
        slot_fulfil: 0,
        grain_done: 0,
        output: 0,
        wait_slot: (-1) as i32,
        wait_owner: (-1) as i64,
        wait_us: 0,
        deps: Seq::empty(),
        pipe: false,
    }
}

/// One stretch that the dispatcher was blocked for.
pub struct CapWait {
    /// What it was blocked on.
    pub kind: &'static str,
    /// Since when.
    pub begin: u64,
    /// Until when.
    pub end: u64,
}

/// The timeline of a stream.
pub struct Log {
    /// One record for every coded frame, in decoding order.
    pub frames: Vec<Rec>,
    /// Every stretch that the dispatcher was blocked for.
    pub caps: Vec<CapWait>,
}

/// The records of a log.
pub open spec fn rows(frames: Seq<Rec>) -> Seq<RecView> {
    Seq::new(frames.len(), |i: int| frames[i]@)
}

/// The records with room for frame `idx`.
pub open spec fn padded(frames: Seq<RecView>, idx: int) -> Seq<RecView> {
    if frames.len() <= idx {
        frames + Seq::new((idx + 1 - frames.len()) as nat, |i: int| blank())
    } else {
        frames
    }
}

/// The records with frame `idx` there and marked as used.
pub open spec fn opened(frames: Seq<RecView>, idx: int) -> Seq<RecView> {
    let there = padded(frames, idx);
    there.update(idx, RecView { used: true, ..there[idx] })
}

/// A record with one phase marked.
pub open spec fn marked(r: RecView, phase: Phase, t: u64) -> RecView {
    match phase {
        Phase::RefsReady => RecView { refs_ready: t, ..r },
        Phase::HdrDone => RecView { hdr_done: t, ..r },
        Phase::TileDone => RecView { tile_done: t, ..r },
        Phase::ReconDone => RecView { recon_done: t, ..r },
        Phase::FiltersDone => RecView { filters_done: t, ..r },
        Phase::SlotFulfil => RecView { slot_fulfil: t, ..r },
        Phase::GrainDone => RecView { grain_done: t, ..r },
    }
}

/// A record after a wait of `waited_us` on `slot`, which `owner` filled.
pub open spec fn waited(r: RecView, slot: usize, owner: usize, waited_us: u64) -> RecView {
    let deps = if owner != NO_FRAME && !r.deps.contains(owner) {
        r.deps.push(owner)
    } else {
        r.deps
    };
    if waited_us > r.wait_us {
        RecView {
            deps,
            wait_us: waited_us,
            wait_slot: slot as i32,
            wait_owner: if owner == NO_FRAME {
                (-1) as i64
            } else {
                owner as i64
            },
            ..r
        }
    } else {
        RecView { deps, ..r }
    }
}

/// Whether a record takes the stamp of the output: a frame that has finished,
/// on a worker or inline, and was not put out before.
pub open spec fn awaits_output(r: RecView) -> bool {
    r.output == 0 && (r.grain_done != 0 || (r.submit == 0 && r.filters_done != 0))
}

/// Whether no record names a frame twice among those it waited on.
pub open spec fn deps_are_unique(frames: Seq<RecView>) -> bool {
    forall|i: int| 0 <= i < frames.len() ==> (#[trigger] frames[i]).deps.no_duplicates()
}

/// A frame of which nothing is recorded yet.
fn blank_rec() -> (r: Rec)
    ensures
        r@ == blank(),
{
    let r: Rec = Rec {
        used: false,
        ftype: '\0',
        show: false,
        submit: 0,
        start: 0,
        refs_ready: 0,
        hdr_done: 0,
        tile_done: 0,
        recon_done: 0,
        filters_done: 0,
        slot_fulfil: 0,
        grain_done: 0,
        output: 0,
        wait_slot: -1,
        wait_owner: -1,
        wait_us: 0,
        deps: Vec::new(),
        pipe: false,
    };
    assert(r.deps@ =~= Seq::<usize>::empty());
    r
}

/// Whether a list holds a frame.
fn holds(list: &Vec<usize>, frame: usize) -> (found: bool)
    ensures
        found == list@.contains(frame),
{
    for i in 0..list.len()
        invariant
            forall|k: int| 0 <= k < i ==> list@[k] != frame,
    {
        if list[i] == frame {
            assert(list@[i as int] == frame);
            return true;
        }
    }
    false
}

impl Log {
    /// The records.
    pub open spec fn rows(&self) -> Seq<RecView> {
        rows(self.frames@)
    }

    /// A timeline without any frame.
    pub fn new() -> (log: Log)
        ensures
            log.rows() == Seq::<RecView>::empty(),
            log.caps@ == Seq::<CapWait>::empty(),
            deps_are_unique(log.rows()),
    {
        let log: Log = Log { frames: Vec::new(), caps: Vec::new() };
        assert(log.rows() =~= Seq::<RecView>::empty());
        log
    }

    /// Makes room for frame `idx` and marks it as used.
    fn open(&mut self, idx: usize)
        requires
            idx < usize::MAX,
        ensures
            final(self).rows() == opened(old(self).rows(), idx as int),
            final(self).caps == old(self).caps,
            idx < final(self).frames.len(),
            deps_are_unique(old(self).rows()) ==> deps_are_unique(final(self).rows()),
    {
        let ghost before = self.rows();
        while self.frames.len() <= idx
            invariant
                idx < usize::MAX,
                self.caps == old(self).caps,
                before.len() <= self.frames.len(),
                self.frames.len() <= idx + 1 || self.frames.len() == before.len(),
                forall|i: int| 0 <= i < before.len() ==> (#[trigger] self.frames@[i])@ == before[i],
                forall|i: int|
                    before.len() <= i < self.frames.len() ==> (#[trigger] self.frames@[i])@
                        == blank(),
            decreases idx + 1 - self.frames.len(),
        {
            self.frames.push(blank_rec());
        }
        assert(self.rows() =~= padded(before, idx as int));
        let ghost there = self.rows();
        self.frames[idx].used = true;
        assert(self.rows() =~= opened(before, idx as int));
    }

    /// A job was queued at `t`.
    pub fn submit(&mut self, idx: usize, ftype: char, show: bool, t: u64)
        requires
            idx < usize::MAX,
        ensures
            ({
                let there = opened(old(self).rows(), idx as int);
                final(self).rows() == there.update(
                    idx as int,
                    RecView { ftype, show, submit: t, ..there[idx as int] },
                )
            }),
            final(self).caps == old(self).caps,
            deps_are_unique(old(self).rows()) ==> deps_are_unique(final(self).rows()),
    {
        let ghost before = self.rows();
        self.open(idx);
        let ghost there = self.rows();
        self.frames[idx].ftype = ftype;
        self.frames[idx].show = show;
        self.frames[idx].submit = t;
        assert(self.rows() =~= there.update(
            idx as int,
            RecView { ftype, show, submit: t, ..there[idx as int] },
        ));
    }

    /// A worker took the job at `t`.
    pub fn start(&mut self, idx: usize, t: u64)
        requires
            idx < usize::MAX,
        ensures
            ({
                let there = opened(old(self).rows(), idx as int);
                final(self).rows() == there.update(
                    idx as int,
                    RecView { start: t, ..there[idx as int] },
                )
            }),
            final(self).caps == old(self).caps,
            deps_are_unique(old(self).rows()) ==> deps_are_unique(final(self).rows()),
    {
        self.open(idx);
        let ghost there = self.rows();
        self.frames[idx].start = t;
        assert(self.rows() =~= there.update(idx as int, RecView { start: t, ..there[idx as int] }));
    }

    /// A frame that nobody queued is decoded inline.
    pub fn bind(&mut self, idx: usize, ftype: char, show: bool)
        requires
            idx < usize::MAX,
        ensures
            ({
                let there = opened(old(self).rows(), idx as int);
                final(self).rows() == there.update(
                    idx as int,
                    RecView { ftype, show, ..there[idx as int] },
                )
            }),
            final(self).caps == old(self).caps,
            deps_are_unique(old(self).rows()) ==> deps_are_unique(final(self).rows()),
    {
        self.open(idx);
        let ghost there = self.rows();
        self.frames[idx].ftype = ftype;
        self.frames[idx].show = show;
        assert(self.rows() =~= there.update(
            idx as int,
            RecView { ftype, show, ..there[idx as int] },
        ));
    }

    /// A wait on a slot came to its end: the longest one of a frame is kept,
    /// and every frame that filled a slot is noted once.
    pub fn ref_wait(&mut self, idx: usize, slot: usize, owner: usize, waited_us: u64)
        requires
            idx < usize::MAX,
        ensures
            ({
                let there = opened(old(self).rows(), idx as int);
                final(self).rows() == there.update(
                    idx as int,
                    waited(there[idx as int], slot, owner, waited_us),
                )
            }),
            final(self).caps == old(self).caps,
            deps_are_unique(old(self).rows()) ==> deps_are_unique(final(self).rows()),
    {
        self.open(idx);
        let ghost there = self.rows();
        if owner != NO_FRAME && !holds(&self.frames[idx].deps, owner) {
            self.frames[idx].deps.push(owner);
        }
        if waited_us > self.frames[idx].wait_us {
            self.frames[idx].wait_us = waited_us;
            self.frames[idx].wait_slot = slot as i32;
            self.frames[idx].wait_owner = if owner == NO_FRAME {
                -1
            } else {
                owner as i64
            };
        }
        assert(self.rows() =~= there.update(
            idx as int,
            waited(there[idx as int], slot, owner, waited_us),
        ));
    }

    /// The frame being decoded, if any, reached a phase at `t`.
    pub fn stamp(&mut self, current: usize, phase: Phase, t: u64)
        ensures
            current == NO_FRAME ==> *final(self) == *old(self),
            current != NO_FRAME ==> {
                let there = opened(old(self).rows(), current as int);
                final(self).rows() == there.update(
                    current as int,
                    marked(there[current as int], phase, t),
                )
            },
            final(self).caps == old(self).caps,
            deps_are_unique(old(self).rows()) ==> deps_are_unique(final(self).rows()),
    {
        if current == NO_FRAME {
            return;
        }
        self.open(current);
        let ghost there = self.rows();
        match phase {
            Phase::RefsReady => self.frames[current].refs_ready = t,
            Phase::HdrDone => self.frames[current].hdr_done = t,
            Phase::TileDone => self.frames[current].tile_done = t,
            Phase::ReconDone => self.frames[current].recon_done = t,
            Phase::FiltersDone => self.frames[current].filters_done = t,
            Phase::SlotFulfil => self.frames[current].slot_fulfil = t,
            Phase::GrainDone => self.frames[current].grain_done = t,
        }
        assert(self.rows() =~= there.update(
            current as int,
            marked(there[current as int], phase, t),
        ));
    }

    /// Whether the filters of the frame being decoded, if any, ran row by row.
    pub fn note_pipe(&mut self, current: usize, pipe: bool)
        ensures
            current == NO_FRAME ==> *final(self) == *old(self),
            current != NO_FRAME ==> {
                let there = opened(old(self).rows(), current as int);
                final(self).rows() == there.update(
                    current as int,
                    RecView { pipe, ..there[current as int] },
                )
            },
            final(self).caps == old(self).caps,
            deps_are_unique(old(self).rows()) ==> deps_are_unique(final(self).rows()),
    {
        if current == NO_FRAME {
            return;
        }
        self.open(current);
        let ghost there = self.rows();
        self.frames[current].pipe = pipe;
        assert(self.rows() =~= there.update(
            current as int,
            RecView { pipe, ..there[current as int] },
        ));
    }

    /// A picture was put out at `t`: the stamp of a frame that awaits it.
    pub fn output(&mut self, idx: usize, t: u64)
        ensures
            final(self).rows() == if idx < old(self).rows().len() && awaits_output(
                old(self).rows()[idx as int],
            ) {
                old(self).rows().update(
                    idx as int,
                    RecView { output: t, ..old(self).rows()[idx as int] },
                )
            } else {
                old(self).rows()
            },
            final(self).caps == old(self).caps,
            deps_are_unique(old(self).rows()) ==> deps_are_unique(final(self).rows()),
    {
        let ghost before = self.rows();
        if idx < self.frames.len() {
            assert(before[idx as int] == self.frames@[idx as int]@);
            let done: bool = self.frames[idx].grain_done != 0 || (self.frames[idx].submit == 0
                && self.frames[idx].filters_done != 0);
            if self.frames[idx].output == 0 && done {
                self.frames[idx].output = t;
                assert(self.rows() =~= before.update(
                    idx as int,
                    RecView { output: t, ..before[idx as int] },
                ));
            }
        }
    }

    /// The dispatcher was blocked.
    pub fn cap_wait(&mut self, kind: &'static str, begin: u64, end: u64)
        ensures
            final(self).frames == old(self).frames,
            final(self).caps@ == old(self).caps@.push(CapWait { kind, begin, end }),
    {
        self.caps.push(CapWait { kind, begin, end });
    }
}

/// A picture's first output stamp stands: putting it out again changes
/// nothing, unless the first stamp was zero.
pub proof fn outputs_are_stamped_once(r: RecView, t: u64)
    requires
        t != 0,
    ensures
        !awaits_output(RecView { output: t, ..r }),
{
}

/// Each phase has a stamp of its own: stamping it sets that one and no other, and two
/// phases can be stamped in either order.
pub proof fn phases_have_their_own_stamps(r: RecView, a: Phase, b: Phase, t: u64, u: u64)
    ensures
        marked(r, Phase::RefsReady, t).refs_ready == t,
        marked(r, Phase::HdrDone, t).hdr_done == t,
        marked(r, Phase::TileDone, t).tile_done == t,
        marked(r, Phase::ReconDone, t).recon_done == t,
        marked(r, Phase::FiltersDone, t).filters_done == t,
        marked(r, Phase::SlotFulfil, t).slot_fulfil == t,
        marked(r, Phase::GrainDone, t).grain_done == t,
        a != b ==> marked(marked(r, a, t), b, u) == marked(marked(r, b, u), a, t),
        marked(marked(r, a, t), a, u) == marked(r, a, u),
        marked(r, a, t).submit == r.submit && marked(r, a, t).start == r.start,
        marked(r, a, t).output == r.output && marked(r, a, t).deps == r.deps,
        marked(r, a, t).wait_us == r.wait_us && marked(r, a, t).used == r.used,
{
}

/// A frame keeps its longest wait, the earliest of equals, with the slot and the frame it
/// waited for; and each frame that it waited for once, in the order of the first waits.
pub proof fn the_longest_wait_is_kept(r: RecView, slot: usize, owner: usize, us: u64)
    ensures
        ({
            let w = waited(r, slot, owner, us);
            &&& w.wait_us >= r.wait_us && w.wait_us >= us
            &&& w.wait_us == r.wait_us || w.wait_us == us
            &&& us <= r.wait_us ==> w.wait_slot == r.wait_slot && w.wait_owner == r.wait_owner
            &&& us > r.wait_us ==> w.wait_slot == slot as i32
            &&& us > r.wait_us && owner == NO_FRAME ==> w.wait_owner == -1
            &&& us > r.wait_us && owner != NO_FRAME ==> w.wait_owner == owner as i64
            &&& owner == NO_FRAME || r.deps.contains(owner) ==> w.deps == r.deps
            &&& owner != NO_FRAME && !r.deps.contains(owner) ==> w.deps == r.deps.push(owner)
            &&& waited(w, slot, owner, us) == w
            &&& w.output == r.output && w.start == r.start && w.submit == r.submit
        }),
{
    if owner != NO_FRAME && !r.deps.contains(owner) {
        let d = r.deps.push(owner);
        assert(d[d.len() - 1] == owner);
        assert(d.contains(owner));
    }
}

/// Opening a frame makes it and every one before it exist, marks it alone as used, and
/// keeps what was recorded of any other.
pub proof fn opening_keeps_the_records(frames: Seq<RecView>, idx: int, i: int)
    requires
        0 <= idx,
        0 <= i,
    ensures
        ({
            let done = opened(frames, idx);
            &&& done.len() == if frames.len() > idx {
                frames.len() as int
            } else {
                idx + 1
            }
            &&& done[idx].used
            &&& i < frames.len() && i != idx ==> done[i] == frames[i]
            &&& frames.len() <= i < done.len() && i != idx ==> !done[i].used && done[i].output == 0
                && done[i].deps.len() == 0 && done[i].wait_owner == -1
            &&& idx < frames.len() ==> done[idx].deps == frames[idx].deps && done[idx].start
                == frames[idx].start && done[idx].submit == frames[idx].submit
            &&& opened(done, idx) == done
        }),
{
    let done = opened(frames, idx);
    assert(opened(done, idx) =~= done);
}

/// A picture is put out once: after its grain where its frame was queued, and after its filters
/// where it was decoded inline.
pub proof fn pictures_are_put_out_when_they_are_done(r: RecView)
    ensures
        r.output != 0 ==> !awaits_output(r),
        r.output == 0 && r.grain_done != 0 ==> awaits_output(r),
        r.output == 0 && r.grain_done == 0 && r.submit != 0 ==> !awaits_output(r),
        r.output == 0 && r.grain_done == 0 && r.submit == 0 ==> (awaits_output(r)
            <==> r.filters_done != 0),
{
}

} // verus!
