//! The work executor, modelled over the snapshot: two passes over the
//! plan (directories and file copies first, then links), overwrite
//! confirmation with yes/no/all/quit, chunked content transfer with a
//! cancellation poll per chunk, and special-file handling. Every step
//! is pinned by a specification mirror; the surrounding program
//! performs each returned effect with real I/O.

use vstd::prelude::*;
use crate::path::{FsPath, PathV};
use crate::fsmodel::{FsSnapshot, FsEntry, FileKind, has_entry, entry_at};
use crate::plan::{Plan, PlanEntry, Action};
use crate::cancel::CancelToken;
use crate::prompt::Answer;

verus! {

/// Bytes moved per chunk of file content.
pub const CHUNK_SIZE: u64 = 8192;

/// One performed (or skipped) operation.
pub enum Effect {
    CreatedDir { dest: FsPath },
    CopiedFile { src: FsPath, dest: FsPath, bytes: u64, completed: bool },
    CreatedFifo { dest: FsPath },
    SkippedSpecial { src: FsPath },
    SkippedExisting { dest: FsPath },
    CreatedLink { target: FsPath, dest: FsPath },
}

/// The mathematical value of an effect.
pub enum EffectV {
    CreatedDirV { dest: PathV },
    CopiedFileV { src: PathV, dest: PathV, bytes: u64, completed: bool },
    CreatedFifoV { dest: PathV },
    SkippedSpecialV { src: PathV },
    SkippedExistingV { dest: PathV },
    CreatedLinkV { target: PathV, dest: PathV },
}

pub open spec fn ev(e: Effect) -> EffectV {
    match e {
        Effect::CreatedDir { dest } => EffectV::CreatedDirV { dest: dest.pv() },
        Effect::CopiedFile { src, dest, bytes, completed } => EffectV::CopiedFileV {
            src: src.pv(),
            dest: dest.pv(),
            bytes,
            completed,
        },
        Effect::CreatedFifo { dest } => EffectV::CreatedFifoV { dest: dest.pv() },
        Effect::SkippedSpecial { src } => EffectV::SkippedSpecialV { src: src.pv() },
        Effect::SkippedExisting { dest } => EffectV::SkippedExistingV { dest: dest.pv() },
        Effect::CreatedLink { target, dest } => EffectV::CreatedLinkV {
            target: target.pv(),
            dest: dest.pv(),
        },
    }
}

/// Values of a list of effects.
pub open spec fn evs(s: Seq<Effect>) -> Seq<EffectV> {
    s.map_values(|e: Effect| ev(e))
}

/// The token after one poll.
pub open spec fn polled(token: CancelToken) -> CancelToken {
    CancelToken {
        fires_after: token.fires_after,
        polls: if token.polls < u64::MAX {
            (token.polls + 1) as u64
        } else {
            token.polls
        },
    }
}

/// The outcome of one chunked transfer: bytes written, whether it
/// completed, and the token afterwards.
pub struct ChunkRes {
    pub bytes: u64,
    pub completed: bool,
    pub token: CancelToken,
}

/// The chunk loop, step by step: each pass polls once; a fired poll
/// stops the transfer where it stands, so at most one whole chunk is
/// written after the poll at which the token fires.
pub open spec fn chunk_copy_spec(size: u64, written: u64, token: CancelToken) -> ChunkRes
    decreases size - written,
{
    if token.fired() {
        ChunkRes { bytes: written, completed: false, token: polled(token) }
    } else if written >= size {
        ChunkRes { bytes: size, completed: true, token: polled(token) }
    } else {
        let n = if size - written < CHUNK_SIZE {
            (size - written) as u64
        } else {
            CHUNK_SIZE
        };
        chunk_copy_spec(size, (written + n) as u64, polled(token))
    }
}

/// Copies `size` bytes in chunks, polling the token once per pass (at
/// least once per chunk): the result is exactly `chunk_copy_spec`, so
/// the transfer stops within one chunk of the poll at which the token
/// fires, and a token that never fires completes the whole size.
#[verifier::loop_isolation(false)]
pub fn copy_file_bytes(size: u64, token: &mut CancelToken) -> (r: (u64, bool))
    ensures
        ({
            let cr = chunk_copy_spec(size, 0, *old(token));
            &&& r.0 == cr.bytes
            &&& r.1 == cr.completed
            &&& *final(token) == cr.token
        }),
        final(token).fires_after == old(token).fires_after,
        r.1 <==> r.0 == size && !(chunk_stops(size, *old(token))),
        old(token).fires_after is None ==> r.1 && r.0 == size,
{
    proof {
        lemma_chunk_props(size, 0, *old(token));
    }
    let mut written: u64 = 0;
    loop
        invariant
            written <= size,
            chunk_copy_spec(size, 0, *old(token)) == chunk_copy_spec(size, written, *token),
        decreases size - written, 1int,
    {
        if token.poll() {
            return (written, false);
        }
        let remaining = size - written;
        if remaining == 0 {
            return (size, true);
        }
        let n = if remaining < CHUNK_SIZE {
            remaining
        } else {
            CHUNK_SIZE
        };
        written = written + n;
    }
}

/// Whether the chunk loop is stopped by the token.
pub open spec fn chunk_stops(size: u64, token: CancelToken) -> bool {
    !chunk_copy_spec(size, 0, token).completed
}

/// A transfer completes exactly when the token never fires during it;
/// the token's trigger point is unchanged either way.
pub proof fn lemma_chunk_props(size: u64, written: u64, token: CancelToken)
    requires
        written <= size,
    ensures
        ({
            let cr = chunk_copy_spec(size, written, token);
            &&& cr.token.fires_after == token.fires_after
            &&& (cr.completed ==> cr.bytes == size)
            &&& (!cr.completed ==> token.fires_after is Some)
            &&& (cr.completed <==> cr.bytes == size && !(!cr.completed))
            &&& (token.fires_after is None ==> cr.completed && cr.bytes == size)
        }),
    decreases size - written,
{
    if token.fired() {
    } else if written >= size {
    } else {
        let n: u64 = if size - written < CHUNK_SIZE {
            (size - written) as u64
        } else {
            CHUNK_SIZE
        };
        lemma_chunk_props(size, (written + n) as u64, polled(token));
    }
}

/// What to do with one `Copy` item whose destination already exists
/// while confirmation is on: (copy it, keep confirming, abort the
/// rest of the run).
pub open spec fn overwrite_spec(answer: Answer) -> (bool, bool, bool) {
    match answer {
        Answer::Yes => (true, true, false),
        Answer::No => (false, true, false),
        Answer::All => (true, false, false),
        Answer::Quit => (false, true, true),
    }
}

/// Applies an overwrite answer.
pub fn apply_overwrite_answer(answer: &Answer) -> (r: (bool, bool, bool))
    ensures
        r == overwrite_spec(*answer),
{
    match answer {
        Answer::Yes => (true, true, false),
        Answer::No => (false, true, false),
        Answer::All => (true, false, false),
        Answer::Quit => (false, true, true),
    }
}

/// The executor's evolving state: whether overwrites still prompt, the
/// next scripted answer, and the cancellation token.
pub struct RunState {
    pub confirm: bool,
    pub ai: int,
    pub token: CancelToken,
}

/// One item's outcome: its effects, the state afterwards, and whether
/// the run continues.
pub struct ItemStep {
    pub effects: Seq<EffectV>,
    pub st: RunState,
    pub cont: bool,
}

/// The next scripted answer (declining when the script runs dry, where
/// the interactive original would block on the prompt).
pub open spec fn scripted(answers: Seq<Answer>, ai: int) -> Answer {
    if 0 <= ai < answers.len() {
        answers[ai]
    } else {
        Answer::No
    }
}

/// The answer cursor after one prompt.
pub open spec fn ai_next(answers: Seq<Answer>, ai: int) -> int {
    if 0 <= ai < answers.len() {
        ai + 1
    } else {
        ai
    }
}

/// How one `Copy` item's source is treated: a FIFO is recreated, a
/// socket or device skipped with a warning, anything else streamed.
pub open spec fn copy_kind_case(fs: Seq<FsEntry>, src: PathV) -> int {
    if has_entry(fs, src) {
        match entry_at(fs, src).kind {
            FileKind::Fifo => 1,
            FileKind::Socket => 2,
            FileKind::BlockDevice => 2,
            FileKind::CharDevice => 2,
            _ => 0,
        }
    } else {
        0
    }
}

/// The streamed size of a `Copy` item's source.
pub open spec fn src_size(fs: Seq<FsEntry>, src: PathV) -> u64 {
    if has_entry(fs, src) {
        match entry_at(fs, src).kind {
            FileKind::Regular { size } => size,
            _ => 0,
        }
    } else {
        0
    }
}

/// What executing one work item does: a directory is created unless it
/// exists; a link is recreated; a copy first passes the overwrite
/// prompt (once per item; `all` stops prompting, `quit` aborts the
/// rest), then recreates a FIFO, skips a socket or device with a
/// warning, or streams the contents chunk by chunk under the token.
pub open spec fn item_step_spec(
    fs: Seq<FsEntry>,
    dest: PathV,
    act: Action,
    src: PathV,
    answers: Seq<Answer>,
    st: RunState,
) -> ItemStep {
    match act {
        Action::CreateDir => ItemStep {
            effects: if has_entry(fs, dest) {
                Seq::empty()
            } else {
                seq![EffectV::CreatedDirV { dest }]
            },
            st,
            cont: true,
        },
        Action::Link => ItemStep {
            effects: seq![EffectV::CreatedLinkV { target: src, dest }],
            st,
            cont: true,
        },
        Action::Copy => {
            let prompted = st.confirm && has_entry(fs, dest);
            let ans = scripted(answers, st.ai);
            let st1 = if prompted {
                RunState {
                    confirm: overwrite_spec(ans).1,
                    ai: ai_next(answers, st.ai),
                    token: st.token,
                }
            } else {
                st
            };
            if prompted && overwrite_spec(ans).2 {
                ItemStep { effects: Seq::empty(), st: st1, cont: false }
            } else if prompted && !overwrite_spec(ans).0 {
                ItemStep { effects: seq![EffectV::SkippedExistingV { dest }], st: st1, cont: true }
            } else if copy_kind_case(fs, src) == 1 {
                ItemStep { effects: seq![EffectV::CreatedFifoV { dest }], st: st1, cont: true }
            } else if copy_kind_case(fs, src) == 2 {
                ItemStep { effects: seq![EffectV::SkippedSpecialV { src }], st: st1, cont: true }
            } else {
                let cr = chunk_copy_spec(src_size(fs, src), 0, st1.token);
                ItemStep {
                    effects: seq![
                        EffectV::CopiedFileV {
                            src,
                            dest,
                            bytes: cr.bytes,
                            completed: cr.completed,
                        },
                    ],
                    st: RunState { confirm: st1.confirm, ai: st1.ai, token: cr.token },
                    cont: cr.completed,
                }
            }
        },
    }
}

/// A pass over the plan from entry `i` on: items whose action belongs
/// to the pass run in plan (destination) order; the pass stops early
/// when an item does.
pub open spec fn pass_spec(
    fs: Seq<FsEntry>,
    entries: Seq<PlanEntry>,
    i: int,
    link_pass: bool,
    answers: Seq<Answer>,
    st: RunState,
) -> ItemStep
    decreases entries.len() - i,
{
    if i < 0 || i >= entries.len() {
        ItemStep { effects: Seq::empty(), st, cont: true }
    } else {
        let e = entries[i];
        let in_pass = (e.item.act == Action::Link) == link_pass;
        if !in_pass {
            pass_spec(fs, entries, i + 1, link_pass, answers, st)
        } else {
            let step = item_step_spec(fs, e.dest.pv(), e.item.act, e.item.src.pv(), answers, st);
            if !step.cont {
                ItemStep { effects: step.effects, st: step.st, cont: false }
            } else {
                let rest = pass_spec(fs, entries, i + 1, link_pass, answers, step.st);
                ItemStep { effects: step.effects + rest.effects, st: rest.st, cont: rest.cont }
            }
        }
    }
}

/// The whole run: directories and file contents first, then links, the
/// second pass only when the first completed; `aborted` records an
/// early stop (a quit answer or a fired token), never an error.
pub open spec fn run_spec(
    fs: Seq<FsEntry>,
    entries: Seq<PlanEntry>,
    answers: Seq<Answer>,
    st: RunState,
) -> ItemStep {
    let p1 = pass_spec(fs, entries, 0, false, answers, st);
    if p1.cont {
        let p2 = pass_spec(fs, entries, 0, true, answers, p1.st);
        ItemStep { effects: p1.effects + p2.effects, st: p2.st, cont: p2.cont }
    } else {
        p1
    }
}

/// The outcome of one run of the executor.
pub struct ExecOutcome {
    pub effects: Vec<Effect>,
    pub aborted: bool,
}

/// The executor: consumes the plan in two passes.
pub struct WorkRunner {
    pub confirm_overwrite: bool,
    pub preserve_metadata: bool,
    pub answers: Vec<Answer>,
    pub next_answer: usize,
}

impl WorkRunner {
    /// The executor's state as the mirror sees it.
    pub open spec fn st(self, token: CancelToken) -> RunState {
        RunState { confirm: self.confirm_overwrite, ai: self.next_answer as int, token }
    }

    pub fn new(confirm_overwrite: bool, preserve_metadata: bool, answers: Vec<Answer>) -> (r: Self)
        ensures
            r.confirm_overwrite == confirm_overwrite,
            r.preserve_metadata == preserve_metadata,
            r.answers == answers,
            r.next_answer == 0,
    {
        WorkRunner { confirm_overwrite, preserve_metadata, answers, next_answer: 0 }
    }

    /// The next scripted answer.
    fn take_answer(&mut self) -> (r: Answer)
        ensures
            final(self).answers == old(self).answers,
            final(self).confirm_overwrite == old(self).confirm_overwrite,
            final(self).preserve_metadata == old(self).preserve_metadata,
            r == scripted(old(self).answers@, old(self).next_answer as int),
            final(self).next_answer as int == ai_next(
                old(self).answers@,
                old(self).next_answer as int,
            ),
    {
        if self.next_answer < self.answers.len() {
            let a = match self.answers[self.next_answer] {
                Answer::Yes => Answer::Yes,
                Answer::No => Answer::No,
                Answer::All => Answer::All,
                Answer::Quit => Answer::Quit,
            };
            self.next_answer = self.next_answer + 1;
            a
        } else {
            Answer::No
        }
    }

    /// Executes one work item, exactly as `item_step_spec` says.
    /// Returns `Ok(false)` when the run must stop: the user chose
    /// quit, or cancellation fired mid-copy. Never an error.
    pub fn do_work_item(
        &mut self,
        fs: &FsSnapshot,
        token: &mut CancelToken,
        dest: &FsPath,
        act: &Action,
        src: &FsPath,
        effects: &mut Vec<Effect>,
    ) -> (r: Result<bool, String>)
        requires
            fs.wf(),
        ensures
            ({
                let step = item_step_spec(
                    fs.entries@,
                    dest.pv(),
                    *act,
                    src.pv(),
                    old(self).answers@,
                    old(self).st(*old(token)),
                );
                &&& final(self).answers == old(self).answers
                &&& final(self).preserve_metadata == old(self).preserve_metadata
                &&& final(self).confirm_overwrite == step.st.confirm
                &&& final(self).next_answer as int == step.st.ai
                &&& *final(token) == step.st.token
                &&& evs(final(effects)@) == evs(old(effects)@) + step.effects
                &&& r == Result::<bool, String>::Ok(step.cont)
            }),
    {
        let ghost e0 = effects@;
        match act {
            Action::CreateDir => {
                let exists = match fs.lookup(dest) {
                    Option::Some(i) => true,
                    Option::None => false,
                };
                if !exists {
                    effects.push(Effect::CreatedDir { dest: dest.clone() });
                    proof {
                        assert(evs(effects@) =~= evs(e0) + seq![
                            EffectV::CreatedDirV { dest: dest.pv() },
                        ]);
                    }
                } else {
                    proof {
                        assert(evs(effects@) =~= evs(e0) + Seq::<EffectV>::empty());
                    }
                }
                Result::Ok(true)
            },
            Action::Link => {
                effects.push(Effect::CreatedLink { target: src.clone(), dest: dest.clone() });
                proof {
                    assert(evs(effects@) =~= evs(e0) + seq![
                        EffectV::CreatedLinkV { target: src.pv(), dest: dest.pv() },
                    ]);
                }
                Result::Ok(true)
            },
            Action::Copy => {
                let exists = match fs.lookup(dest) {
                    Option::Some(i) => true,
                    Option::None => false,
                };
                if self.confirm_overwrite && exists {
                    let answer = self.take_answer();
                    let (do_copy, keep_confirm, abort) = apply_overwrite_answer(&answer);
                    self.confirm_overwrite = keep_confirm;
                    if abort {
                        proof {
                            assert(evs(effects@) =~= evs(e0) + Seq::<EffectV>::empty());
                        }
                        return Result::Ok(false);
                    }
                    if !do_copy {
                        effects.push(Effect::SkippedExisting { dest: dest.clone() });
                        proof {
                            assert(evs(effects@) =~= evs(e0) + seq![
                                EffectV::SkippedExistingV { dest: dest.pv() },
                            ]);
                        }
                        return Result::Ok(true);
                    }
                }
                let kind_case: u8 = match fs.lookup(src) {
                    Option::Some(i) => {
                        match &fs.entries[i].kind {
                            FileKind::Fifo => 1,
                            FileKind::Socket => 2,
                            FileKind::BlockDevice => 2,
                            FileKind::CharDevice => 2,
                            _ => 0,
                        }
                    },
                    Option::None => 0,
                };
                if kind_case == 1 {
                    effects.push(Effect::CreatedFifo { dest: dest.clone() });
                    proof {
                        assert(evs(effects@) =~= evs(e0) + seq![
                            EffectV::CreatedFifoV { dest: dest.pv() },
                        ]);
                    }
                    return Result::Ok(true);
                }
                if kind_case == 2 {
                    effects.push(Effect::SkippedSpecial { src: src.clone() });
                    proof {
                        assert(evs(effects@) =~= evs(e0) + seq![
                            EffectV::SkippedSpecialV { src: src.pv() },
                        ]);
                    }
                    return Result::Ok(true);
                }
                let size: u64 = match fs.lookup(src) {
                    Option::Some(i) => {
                        match &fs.entries[i].kind {
                            FileKind::Regular { size } => *size,
                            _ => 0,
                        }
                    },
                    Option::None => 0,
                };
                let (bytes, completed) = copy_file_bytes(size, token);
                effects.push(
                    Effect::CopiedFile { src: src.clone(), dest: dest.clone(), bytes, completed },
                );
                proof {
                    assert(evs(effects@) =~= evs(e0) + seq![
                        EffectV::CopiedFileV { src: src.pv(), dest: dest.pv(), bytes, completed },
                    ]);
                }
                Result::Ok(completed)
            },
        }
    }

    /// Runs one pass over the plan, exactly as `pass_spec` says: one
    /// step per matching item, in plan order, stopping when an item
    /// stops the run.
    #[verifier::loop_isolation(false)]
    pub fn do_work_actions(
        &mut self,
        fs: &FsSnapshot,
        token: &mut CancelToken,
        plan: &Plan,
        link_pass: bool,
        effects: &mut Vec<Effect>,
    ) -> (r: Result<bool, String>)
        requires
            fs.wf(),
        ensures
            ({
                let pr = pass_spec(
                    fs.entries@,
                    plan.entries@,
                    0,
                    link_pass,
                    old(self).answers@,
                    old(self).st(*old(token)),
                );
                &&& final(self).answers == old(self).answers
                &&& final(self).preserve_metadata == old(self).preserve_metadata
                &&& final(self).confirm_overwrite == pr.st.confirm
                &&& final(self).next_answer as int == pr.st.ai
                &&& *final(token) == pr.st.token
                &&& evs(final(effects)@) == evs(old(effects)@) + pr.effects
                &&& r == Result::<bool, String>::Ok(pr.cont)
            }),
    {
        let ghost fsv = fs.entries@;
        let ghost entriesv = plan.entries@;
        let ghost answers0 = self.answers@;
        let ghost st0 = self.st(*token);
        let ghost e00 = effects@;
        let n = plan.entries.len();
        let mut i: usize = 0;
        proof {
            assert(evs(effects@).skip(e00.len() as int) =~= Seq::<EffectV>::empty());
            assert(pass_spec(fsv, entriesv, 0, link_pass, answers0, st0).effects =~= Seq::<
                EffectV,
            >::empty() + pass_spec(fsv, entriesv, 0, link_pass, answers0, st0).effects);
        }
        while i < n
            invariant
                fs.wf(),
                n == entriesv.len(),
                entriesv == plan.entries@,
                i <= n,
                self.answers == old(self).answers,
                self.answers@ == answers0,
                self.preserve_metadata == old(self).preserve_metadata,
                ({
                    let pr0 = pass_spec(fsv, entriesv, 0, link_pass, answers0, st0);
                    let pr = pass_spec(
                        fsv,
                        entriesv,
                        i as int,
                        link_pass,
                        answers0,
                        self.st(*token),
                    );
                    &&& pr0.st == pr.st
                    &&& pr0.cont == pr.cont
                    &&& pr0.effects == evs(effects@).skip(e00.len() as int) + pr.effects
                    &&& evs(effects@).take(e00.len() as int) == evs(e00)
                    &&& evs(effects@).len() >= e00.len()
                }),
            decreases n - i,
        {
            let ghost st_cur = self.st(*token);
            let ghost emid = effects@;
            let entry = &plan.entries[i];
            let in_pass = match entry.item.act {
                Action::Link => link_pass,
                Action::Copy => !link_pass,
                Action::CreateDir => !link_pass,
            };
            if in_pass {
                let act = match entry.item.act {
                    Action::Link => Action::Link,
                    Action::Copy => Action::Copy,
                    Action::CreateDir => Action::CreateDir,
                };
                let more = match self.do_work_item(
                    fs,
                    token,
                    &entry.dest,
                    &act,
                    &entry.item.src,
                    effects,
                ) {
                    Result::Ok(b) => b,
                    Result::Err(m) => {
                        proof {
                            assert(false);
                        }
                        return Result::Err(m);
                    },
                };
                proof {
                    let step = item_step_spec(
                        fsv,
                        entriesv[i as int].dest.pv(),
                        entriesv[i as int].item.act,
                        entriesv[i as int].item.src.pv(),
                        answers0,
                        st_cur,
                    );
                    let newv = evs(effects@);
                    let midv = evs(emid);
                    assert(newv == midv + step.effects);
                    assert(newv.take(e00.len() as int) =~= midv.take(e00.len() as int));
                    assert(newv.skip(e00.len() as int) =~= midv.skip(e00.len() as int)
                        + step.effects);
                    let pr0 = pass_spec(fsv, entriesv, 0, link_pass, answers0, st0);
                    let pri = pass_spec(fsv, entriesv, i as int, link_pass, answers0, st_cur);
                    if step.cont {
                        let prn = pass_spec(
                            fsv,
                            entriesv,
                            i + 1,
                            link_pass,
                            answers0,
                            step.st,
                        );
                        assert(pri.effects == step.effects + prn.effects);
                        assert(pr0.effects =~= newv.skip(e00.len() as int) + prn.effects);
                    } else {
                        assert(pri.effects == step.effects);
                        assert(pr0.effects =~= newv.skip(e00.len() as int));
                        assert(evs(effects@) =~= evs(e00) + newv.skip(e00.len() as int));
                    }
                }
                if !more {
                    return Result::Ok(false);
                }
            }
            i += 1;
        }
        proof {
            let pr = pass_spec(fsv, entriesv, n as int, link_pass, answers0, self.st(*token));
            assert(pr.effects =~= Seq::<EffectV>::empty());
            assert(evs(effects@).skip(e00.len() as int) + pr.effects =~= evs(effects@).skip(
                e00.len() as int,
            ));
            assert(evs(effects@) =~= evs(e00) + evs(effects@).skip(e00.len() as int));
        }
        Result::Ok(true)
    }

    /// Executes the whole plan, exactly as `run_spec` says: directories
    /// and file contents first, then symbolic links, in destination
    /// order within each pass; the second pass runs only when the
    /// first completed; an early stop is reported as `aborted`, never
    /// as an error.
    pub fn do_work(
        &mut self,
        fs: &FsSnapshot,
        token: &mut CancelToken,
        plan: &Plan,
    ) -> (r: Result<ExecOutcome, String>)
        requires
            fs.wf(),
        ensures
            r is Ok,
            ({
                let rr = run_spec(
                    fs.entries@,
                    plan.entries@,
                    old(self).answers@,
                    old(self).st(*old(token)),
                );
                let oc = r->Ok_0;
                &&& evs(oc.effects@) == rr.effects
                &&& oc.aborted == !rr.cont
                &&& final(self).confirm_overwrite == rr.st.confirm
                &&& final(self).next_answer as int == rr.st.ai
                &&& *final(token) == rr.st.token
                &&& final(self).answers == old(self).answers
                &&& final(self).preserve_metadata == old(self).preserve_metadata
            }),
    {
        let mut effects: Vec<Effect> = Vec::new();
        proof {
            assert(evs(effects@) =~= Seq::<EffectV>::empty());
        }
        let first = match self.do_work_actions(fs, token, plan, false, &mut effects) {
            Result::Ok(b) => b,
            Result::Err(m) => {
                proof {
                    assert(false);
                }
                return Result::Err(m);
            },
        };
        if first {
            let ghost e1 = effects@;
            let done = match self.do_work_actions(fs, token, plan, true, &mut effects) {
                Result::Ok(b) => b,
                Result::Err(m) => {
                    proof {
                        assert(false);
                    }
                    return Result::Err(m);
                },
            };
            proof {
                assert(evs(effects@) =~= Seq::<EffectV>::empty() + evs(effects@));
            }
            Result::Ok(ExecOutcome { effects, aborted: !done })
        } else {
            proof {
                assert(evs(effects@) =~= Seq::<EffectV>::empty() + evs(effects@));
            }
            Result::Ok(ExecOutcome { effects, aborted: true })
        }
    }
}


/// With overwrite confirmation off and a token that never fires,
/// nothing can stop a pass: it runs to the end, leaving the state as
/// it was (no prompts are consumed and the token only accumulates
/// polls without firing).
pub proof fn lemma_pass_completes(
    fs: Seq<FsEntry>,
    entries: Seq<PlanEntry>,
    i: int,
    link_pass: bool,
    answers: Seq<Answer>,
    st: RunState,
)
    requires
        !st.confirm,
        st.token.fires_after is None,
    ensures
        pass_spec(fs, entries, i, link_pass, answers, st).cont,
        !pass_spec(fs, entries, i, link_pass, answers, st).st.confirm,
        pass_spec(fs, entries, i, link_pass, answers, st).st.token.fires_after is None,
        pass_spec(fs, entries, i, link_pass, answers, st).st.ai == st.ai,
    decreases entries.len() - i,
{
    if 0 <= i < entries.len() {
        let e = entries[i];
        let in_pass = (e.item.act == Action::Link) == link_pass;
        if !in_pass {
            lemma_pass_completes(fs, entries, i + 1, link_pass, answers, st);
        } else {
            let step = item_step_spec(fs, e.dest.pv(), e.item.act, e.item.src.pv(), answers, st);
            match e.item.act {
                Action::CreateDir => {
                    lemma_pass_completes(fs, entries, i + 1, link_pass, answers, step.st);
                },
                Action::Link => {
                    lemma_pass_completes(fs, entries, i + 1, link_pass, answers, step.st);
                },
                Action::Copy => {
                    if copy_kind_case(fs, e.item.src.pv()) == 0 {
                        lemma_chunk_props(src_size(fs, e.item.src.pv()), 0, st.token);
                    }
                    assert(step.cont);
                    assert(step.st.token.fires_after is None) by {
                        if copy_kind_case(fs, e.item.src.pv()) == 0 {
                            lemma_chunk_fires_preserved(
                                src_size(fs, e.item.src.pv()),
                                0,
                                st.token,
                            );
                        }
                    }
                    lemma_pass_completes(fs, entries, i + 1, link_pass, answers, step.st);
                },
            }
        }
    }
}

/// The chunk loop never changes the token's trigger point.
pub proof fn lemma_chunk_fires_preserved(size: u64, written: u64, token: CancelToken)
    ensures
        chunk_copy_spec(size, written, token).token.fires_after == token.fires_after,
    decreases size - written,
{
    if token.fired() {
    } else if written >= size {
    } else {
        let n: u64 = if size - written < CHUNK_SIZE {
            (size - written) as u64
        } else {
            CHUNK_SIZE
        };
        lemma_chunk_fires_preserved(size, (written + n) as u64, polled(token));
    }
}

/// With overwrite confirmation off and a token that never fires, the
/// whole run completes: both passes finish, nothing is reported as
/// aborted, and so every planned item was executed.
pub proof fn lemma_run_completes(
    fs: Seq<FsEntry>,
    entries: Seq<PlanEntry>,
    answers: Seq<Answer>,
    st: RunState,
)
    requires
        !st.confirm,
        st.token.fires_after is None,
    ensures
        run_spec(fs, entries, answers, st).cont,
{
    lemma_pass_completes(fs, entries, 0, false, answers, st);
    let p1 = pass_spec(fs, entries, 0, false, answers, st);
    lemma_pass_completes(fs, entries, 0, true, answers, p1.st);
}

} // verus!
