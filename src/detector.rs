//! Recognises bulk copies in the merged access stream. Declared copies from
//! the kernel log wait in a bounded window; a load from the source of one
//! opens a potential copy, whose cursors then follow the loads from its
//! source and the stores to its destination. A copy is reported once enough
//! of it was seen on both sides, or once it is complete; the accesses that
//! belong to a copy are consumed, all others pass through.
use vstd::prelude::*;
use crate::kernel_log::{CopyOp, KernelRecord};
use crate::memory_access::{regular_of, MemRecord, MemoryAccess, RowcloneRecord};
use crate::record::LogRecord;

verus! {

/// Declared copies held in the window at a time.
pub const COPY_WINDOW: usize = 200;

/// Bytes that must be seen on both the load and the store side of a
/// potential copy before it is reported.
pub const COPY_CONFIDENCE_THRESHOLD: u64 = 128;

/// Matched newer intents after which an unmatched one leaves the window.
pub const COPY_WINDOW_STALE_THRESHOLD: u32 = 20;

/// Settings of the detector.
#[derive(Clone, Copy, Debug, PartialEq, Eq, Structural)]
pub struct DetectorConfig {
    pub window_size: usize,
    pub confidence_threshold: u64,
    pub stale_threshold: u32,
}

impl DetectorConfig {
    /// A window of 200 intents, 128 bytes of confidence and a staleness
    /// threshold of 20.
    pub fn standard() -> (r: DetectorConfig)
        ensures
            r.window_size == COPY_WINDOW,
            r.confidence_threshold == COPY_CONFIDENCE_THRESHOLD,
            r.stale_threshold == COPY_WINDOW_STALE_THRESHOLD,
    {
        DetectorConfig {
            window_size: COPY_WINDOW,
            confidence_threshold: COPY_CONFIDENCE_THRESHOLD,
            stale_threshold: COPY_WINDOW_STALE_THRESHOLD,
        }
    }
}

/// A copy being followed: the intent it stems from, the instruction count
/// and CPU of the load that opened it, its declared source, destination and
/// size, and the cursors that the loads and stores advance.
#[derive(Clone, Copy, Debug, PartialEq, Eq, Structural)]
pub struct MemCpy {
    pub rec_id: u64,
    pub insn_count: u64,
    pub from: u64,
    pub to: u64,
    pub size: u64,
    pub current_from: u64,
    pub current_to: u64,
    pub cpu: usize,
}

/// The state of the detector: the window of declared copies, the potential
/// and the ongoing copies, how far the kernel log has been read, and how many
/// intents left the window unmatched because they went stale.
pub struct DetectorModel {
    pub window: Seq<KernelRecord>,
    pub potential: Seq<MemCpy>,
    pub ongoing: Seq<MemCpy>,
    pub log_pos: int,
    pub dropped: int,
}

/// The base address of the 4 KiB page that holds `address`.
pub fn page_number(address: u64) -> (r: u64)
    ensures
        r == address - address % 4096,
{
    let r = address & !0xFFFu64;
    assert(address & !0xFFFu64 == address - address % 4096) by (bit_vector);
    r
}

/// Whether two addresses lie in the same DRAM subarray: bits 21 to 27 agree.
pub fn address_in_same_subarray(a: u64, b: u64) -> (r: bool)
    ensures
        r == ((a / 0x20_0000) % 128 == (b / 0x20_0000) % 128),
{
    let subarray_mask: u64 = 0x7F;
    let subarray_lsb: u64 = 21;
    let a_subarray = (a >> subarray_lsb) & subarray_mask;
    let b_subarray = (b >> subarray_lsb) & subarray_mask;
    assert((a >> 21u64) & 0x7Fu64 == (a / 0x20_0000u64) % 128u64) by (bit_vector);
    assert((b >> 21u64) & 0x7Fu64 == (b / 0x20_0000u64) % 128u64) by (bit_vector);
    a_subarray == b_subarray
}

/// `x + y` modulo 2^64.
pub open spec fn wrap_add(x: u64, y: u64) -> u64 {
    ((x as int + y as int) % 0x1_0000_0000_0000_0000) as u64
}

/// The bytes that access `a` touches.
pub open spec fn access_bytes(a: LogRecord) -> u64 {
    1u64 << (a.size as u64)
}

/// A load at the source cursor or a store at the destination cursor.
pub open spec fn matches_copy(a: LogRecord, c: MemCpy) -> bool {
    (c.current_from == a.address && a.store == 0) || (c.current_to == a.address && a.store == 1)
}

/// The copy after matching access `a`: a store advances the destination
/// cursor, anything else the source cursor, by the access's width.
pub open spec fn advance(c: MemCpy, a: LogRecord) -> MemCpy {
    if a.store == 1 {
        MemCpy { current_to: wrap_add(c.current_to, access_bytes(a)), ..c }
    } else {
        MemCpy { current_from: wrap_add(c.current_from, access_bytes(a)), ..c }
    }
}

/// The destination cursor has reached the end of the destination.
pub open spec fn copy_done(c: MemCpy) -> bool {
    c.current_to as int >= c.to as int + c.size as int
}

/// More than `threshold` bytes were seen on both sides.
pub open spec fn copy_confident(c: MemCpy, threshold: u64) -> bool {
    c.current_to as int - c.to as int > threshold as int && c.current_from as int - c.from as int
        > threshold as int
}

/// The record that reports copy `c`.
pub open spec fn copy_record(c: MemCpy) -> MemoryAccess {
    MemoryAccess::Rowclone(
        RowcloneRecord { insn_count: c.insn_count, from: c.from, to: c.to, cpu: c.cpu },
    )
}

/// The first copy at or after `i` that `a` matches, or -1.
pub open spec fn first_match_from(s: Seq<MemCpy>, a: LogRecord, i: int) -> int
    decreases s.len() - i,
{
    if i < 0 || i >= s.len() {
        -1
    } else if matches_copy(a, s[i]) {
        i
    } else {
        first_match_from(s, a, i + 1)
    }
}

/// The ongoing copies after `a`, if `a` continues one of them: the first
/// it matches advances, and leaves when complete.
pub open spec fn ongoing_after(ongoing: Seq<MemCpy>, a: LogRecord) -> Option<Seq<MemCpy>> {
    let k = first_match_from(ongoing, a, 0);
    if k < 0 {
        None
    } else {
        let c = advance(ongoing[k], a);
        Some(
            if copy_done(c) {
                ongoing.remove(k)
            } else {
                ongoing.update(k, c)
            },
        )
    }
}

/// What the retirement of intent `id` does to intent `x` of the window: the
/// retired one leaves, an older one ages by one and leaves past `threshold`.
pub open spec fn swept(x: KernelRecord, id: u64, threshold: u32) -> Option<KernelRecord> {
    if x.rec_id == id {
        None
    } else if x.rec_id < id {
        if x.stale < threshold {
            Some(KernelRecord { stale: (x.stale + 1) as u32, ..x })
        } else {
            None
        }
    } else if x.stale <= threshold {
        Some(x)
    } else {
        None
    }
}

/// The window after the retirement of intent `id`, before it is refilled.
pub open spec fn sweep(w: Seq<KernelRecord>, id: u64, threshold: u32) -> Seq<KernelRecord>
    decreases w.len(),
{
    if w.len() == 0 {
        seq![]
    } else {
        match swept(w.last(), id, threshold) {
            Some(x) => sweep(w.drop_last(), id, threshold).push(x),
            None => sweep(w.drop_last(), id, threshold),
        }
    }
}

/// How many intents of `w` the retirement of intent `id` drops as stale.
pub open spec fn stale_drops(w: Seq<KernelRecord>, id: u64, threshold: u32) -> nat
    decreases w.len(),
{
    if w.len() == 0 {
        0
    } else if w.last().rec_id != id && swept(w.last(), id, threshold) is None {
        stale_drops(w.drop_last(), id, threshold) + 1
    } else {
        stale_drops(w.drop_last(), id, threshold)
    }
}

/// The window refilled from the log at `pos` up to `size` intents; a line
/// without an intent is read and ends the refill.
pub open spec fn refill(w: Seq<KernelRecord>, log: Seq<Option<KernelRecord>>, pos: int, size: nat) -> (
    Seq<KernelRecord>,
    int,
)
    decreases log.len() - pos,
{
    if w.len() >= size || pos < 0 || pos >= log.len() {
        (w, pos)
    } else {
        match log[pos] {
            None => (w, pos + 1),
            Some(k) => refill(w.push(k), log, pos + 1, size),
        }
    }
}

/// The state after intent `id` was matched.
pub open spec fn retire(
    cfg: DetectorConfig,
    log: Seq<Option<KernelRecord>>,
    d: DetectorModel,
    id: u64,
) -> DetectorModel {
    let (w, p) = refill(sweep(d.window, id, cfg.stale_threshold), log, d.log_pos, cfg.window_size as nat);
    DetectorModel {
        window: w,
        log_pos: p,
        dropped: d.dropped + stale_drops(d.window, id, cfg.stale_threshold),
        ..d
    }
}

/// What access `a` does with potential copy `k`: when it matches, the copy
/// advances; a complete copy is reported and leaves, a confident one is
/// reported and becomes ongoing, and either way its intent is retired.
pub open spec fn pot_one(
    cfg: DetectorConfig,
    log: Seq<Option<KernelRecord>>,
    d: DetectorModel,
    a: LogRecord,
    k: int,
) -> (DetectorModel, Seq<MemoryAccess>, bool) {
    let c = d.potential[k];
    if !matches_copy(a, c) {
        (d, seq![], false)
    } else {
        let c2 = advance(c, a);
        if copy_done(c2) {
            let d2 = retire(cfg, log, d, c2.rec_id);
            (DetectorModel { potential: d.potential.remove(k), ..d2 }, seq![copy_record(c2)], true)
        } else if copy_confident(c2, cfg.confidence_threshold) {
            let d2 = retire(cfg, log, d, c2.rec_id);
            (
                DetectorModel {
                    potential: d.potential.remove(k),
                    ongoing: d.ongoing.push(c2),
                    ..d2
                },
                seq![copy_record(c2)],
                true,
            )
        } else {
            (DetectorModel { potential: d.potential.update(k, c2), ..d }, seq![], true)
        }
    }
}

/// Access `a` against the potential copies `k - 1` down to 0.
pub open spec fn pot_scan(
    cfg: DetectorConfig,
    log: Seq<Option<KernelRecord>>,
    d: DetectorModel,
    a: LogRecord,
    k: int,
) -> (DetectorModel, Seq<MemoryAccess>, bool)
    decreases k,
{
    if k <= 0 {
        (d, seq![], false)
    } else {
        let (d1, o1, m1) = pot_one(cfg, log, d, a, k - 1);
        let (d2, o2, m2) = pot_scan(cfg, log, d1, a, k - 1);
        (d2, o1 + o2, m1 || m2)
    }
}

/// Where a declared copy reads.
pub open spec fn source_address(w: KernelRecord) -> u64 {
    match w.operation {
        CopyOp::KernelToUser => w.kernel_address,
        CopyOp::UserToKernel => w.user_address,
    }
}

/// Where a declared copy writes.
pub open spec fn dest_address(w: KernelRecord) -> u64 {
    match w.operation {
        CopyOp::KernelToUser => w.user_address,
        CopyOp::UserToKernel => w.kernel_address,
    }
}

/// A load from the source of a declared copy.
pub open spec fn is_copy_start(w: KernelRecord, a: LogRecord) -> bool {
    a.store == 0 && source_address(w) == a.address
}

/// The potential copy that load `a` opens for intent `w`; the load itself
/// counts toward the source side.
pub open spec fn new_copy(w: KernelRecord, a: LogRecord) -> MemCpy {
    MemCpy {
        rec_id: w.rec_id,
        insn_count: a.insn_count,
        from: a.address,
        to: dest_address(w),
        size: w.size,
        current_from: wrap_add(a.address, access_bytes(a)),
        current_to: dest_address(w),
        cpu: a.cpu as usize,
    }
}

/// The first potential copy at or after `i` that stems from intent `id`, or -1.
pub open spec fn find_rec(p: Seq<MemCpy>, id: u64, i: int) -> int
    decreases p.len() - i,
{
    if i < 0 || i >= p.len() {
        -1
    } else if p[i].rec_id == id {
        i
    } else {
        find_rec(p, id, i + 1)
    }
}

/// What access `a` does with intent `w`: a load from its source opens a
/// potential copy, or restarts the one it has if that one has not stored
/// anything yet.
pub open spec fn start_one(p: Seq<MemCpy>, w: KernelRecord, a: LogRecord) -> (Seq<MemCpy>, bool) {
    if !is_copy_start(w, a) {
        (p, false)
    } else {
        let k = find_rec(p, w.rec_id, 0);
        if k >= 0 {
            if p[k].current_to == p[k].to {
                (p.update(k, MemCpy { insn_count: a.insn_count, ..p[k] }), true)
            } else {
                (p, false)
            }
        } else {
            (p.push(new_copy(w, a)), true)
        }
    }
}

/// Access `a` against the intents of the window from `j` on.
pub open spec fn start_scan(p: Seq<MemCpy>, window: Seq<KernelRecord>, a: LogRecord, j: int) -> (
    Seq<MemCpy>,
    bool,
)
    decreases window.len() - j,
{
    if j < 0 || j >= window.len() {
        (p, false)
    } else {
        let (pot1, c1) = start_one(p, window[j], a);
        let (pot2, c2) = start_scan(pot1, window, a, j + 1);
        (pot2, c1 || c2)
    }
}

/// One access: it continues an ongoing copy, else a potential one, else it
/// opens potential copies, else it passes through as a regular access.
pub open spec fn step(
    cfg: DetectorConfig,
    log: Seq<Option<KernelRecord>>,
    d: DetectorModel,
    a: LogRecord,
) -> (DetectorModel, Seq<MemoryAccess>) {
    match ongoing_after(d.ongoing, a) {
        Some(o) => (DetectorModel { ongoing: o, ..d }, seq![]),
        None => {
            let (d2, o2, m2) = pot_scan(cfg, log, d, a, d.potential.len() as int);
            if m2 {
                (d2, o2)
            } else {
                let (pot3, m3) = start_scan(d2.potential, d2.window, a, 0);
                let d3 = DetectorModel { potential: pot3, ..d2 };
                if m3 {
                    (d3, seq![])
                } else {
                    (d3, seq![regular_of(a)])
                }
            }
        },
    }
}

/// The intents among `s`.
pub open spec fn somes(s: Seq<Option<KernelRecord>>) -> Seq<KernelRecord>
    decreases s.len(),
{
    if s.len() == 0 {
        seq![]
    } else {
        match s.last() {
            Some(k) => somes(s.drop_last()).push(k),
            None => somes(s.drop_last()),
        }
    }
}

/// The first `window_size` lines of the log fill the window; those without
/// an intent are skipped.
pub open spec fn initial(cfg: DetectorConfig, log: Seq<Option<KernelRecord>>) -> DetectorModel {
    let n = if log.len() < cfg.window_size {
        log.len() as int
    } else {
        cfg.window_size as int
    };
    DetectorModel {
        window: somes(log.take(n)),
        potential: seq![],
        ongoing: seq![],
        log_pos: n,
        dropped: 0,
    }
}

/// The state and the output after the accesses `acc`, in order.
pub open spec fn run(
    cfg: DetectorConfig,
    log: Seq<Option<KernelRecord>>,
    d: DetectorModel,
    acc: Seq<LogRecord>,
) -> (DetectorModel, Seq<MemoryAccess>)
    decreases acc.len(),
{
    if acc.len() == 0 {
        (d, seq![])
    } else {
        let (d1, o1) = run(cfg, log, d, acc.drop_last());
        let (d2, o2) = step(cfg, log, d1, acc.last());
        (d2, o1 + o2)
    }
}

/// The copy detector.
pub struct CopyDetector {
    config: DetectorConfig,
    log: Vec<Option<KernelRecord>>,
    log_pos: usize,
    stale_dropped: usize,
    window: Vec<KernelRecord>,
    potential: Vec<MemCpy>,
    ongoing: Vec<MemCpy>,
}

impl View for CopyDetector {
    type V = DetectorModel;

    closed spec fn view(&self) -> DetectorModel {
        DetectorModel {
            window: self.window@,
            potential: self.potential@,
            ongoing: self.ongoing@,
            log_pos: self.log_pos as int,
            dropped: self.stale_dropped as int,
        }
    }
}

fn wrapping_add(x: u64, y: u64) -> (r: u64)
    ensures
        r == wrap_add(x, y),
{
    if x <= u64::MAX - y {
        x + y
    } else {
        x - (u64::MAX - y) - 1
    }
}

fn mem_copy_match(a: &LogRecord, c: &MemCpy) -> (r: bool)
    ensures
        r == matches_copy(*a, *c),
{
    (c.current_from == a.address && a.store == 0) || (c.current_to == a.address && a.store == 1)
}

fn advanced(c: MemCpy, a: &LogRecord) -> (r: MemCpy)
    requires
        a.size < 64,
    ensures
        r == advance(c, *a),
{
    let bytes = 1u64 << (a.size as u64);
    if a.store == 1 {
        MemCpy { current_to: wrapping_add(c.current_to, bytes), ..c }
    } else {
        MemCpy { current_from: wrapping_add(c.current_from, bytes), ..c }
    }
}

fn copy_done_exec(c: &MemCpy) -> (r: bool)
    ensures
        r == copy_done(*c),
{
    c.to <= u64::MAX - c.size && c.current_to >= c.to + c.size
}

/// Advances copy `copy_idx` by access `a`; true when it is then complete.
fn update_copy(copies: &mut Vec<MemCpy>, copy_idx: usize, a: &LogRecord) -> (r: bool)
    requires
        copy_idx < old(copies)@.len(),
        a.size < 64,
    ensures
        final(copies)@ == old(copies)@.update(
            copy_idx as int,
            advance(old(copies)@[copy_idx as int], *a),
        ),
        r == copy_done(advance(old(copies)@[copy_idx as int], *a)),
{
    let c = advanced(copies[copy_idx], a);
    copies.set(copy_idx, c);
    copy_done_exec(&c)
}

/// Whether potential copy `idx` has passed the confidence threshold.
fn copy_matched(potential_copies: &Vec<MemCpy>, idx: usize, threshold: u64) -> (r: bool)
    requires
        idx < potential_copies@.len(),
    ensures
        r == copy_confident(potential_copies@[idx as int], threshold),
{
    let c = potential_copies[idx];
    c.current_to > c.to && c.current_to - c.to > threshold && c.current_from > c.from
        && c.current_from - c.from > threshold
}

/// Moves potential copy `idx` to the ongoing copies.
fn push_ongoing_copy(ongoing_copies: &mut Vec<MemCpy>, potential_copies: &mut Vec<MemCpy>, idx: usize)
    requires
        idx < old(potential_copies)@.len(),
    ensures
        final(potential_copies)@ == old(potential_copies)@.remove(idx as int),
        final(ongoing_copies)@ == old(ongoing_copies)@.push(old(potential_copies)@[idx as int]),
{
    let copy = potential_copies.remove(idx);
    ongoing_copies.push(copy);
}

/// The record that reports a copy.
fn print_rowclone(copy: &MemCpy) -> (r: MemoryAccess)
    ensures
        r == copy_record(*copy),
{
    MemoryAccess::Rowclone(
        RowcloneRecord { insn_count: copy.insn_count, from: copy.from, to: copy.to, cpu: copy.cpu },
    )
}

/// The record that passes an access through.
fn print_regular_access(a: &LogRecord) -> (r: MemoryAccess)
    ensures
        r == regular_of(*a),
{
    MemoryAccess::Regular(
        MemRecord {
            insn_count: a.insn_count,
            address: a.address,
            store: a.store == 1,
            cpu: a.cpu as usize,
        },
    )
}

/// Retires intent `rec_id` from the window, ages the intents older than it
/// and drops those past `threshold`.
fn update_stale(rec_id: u64, copy_window: &Vec<KernelRecord>, threshold: u32) -> (r: (
    Vec<KernelRecord>,
    usize,
))
    ensures
        r.0@ == sweep(copy_window@, rec_id, threshold),
        r.1 == stale_drops(copy_window@, rec_id, threshold),
        r.0@.len() + r.1 <= copy_window@.len(),
{
    let mut kept: Vec<KernelRecord> = Vec::new();
    let mut drops: usize = 0;
    let mut i: usize = 0;
    while i < copy_window.len()
        invariant
            i <= copy_window@.len(),
            kept@ == sweep(copy_window@.take(i as int), rec_id, threshold),
            drops == stale_drops(copy_window@.take(i as int), rec_id, threshold),
            kept@.len() + drops <= i,
        decreases copy_window@.len() - i,
    {
        let x = copy_window[i];
        assert(copy_window@.take(i + 1).drop_last() =~= copy_window@.take(i as int));
        if x.rec_id == rec_id {
        } else if x.rec_id < rec_id {
            if x.stale < threshold {
                kept.push(KernelRecord { stale: x.stale + 1, ..x });
            } else {
                drops += 1;
            }
        } else if x.stale <= threshold {
            kept.push(x);
        } else {
            drops += 1;
        }
        i += 1;
    }
    assert(copy_window@.take(i as int) =~= copy_window@);
    (kept, drops)
}

/// The first potential copy that stems from intent `id`.
fn find_potential(potential: &Vec<MemCpy>, id: u64) -> (r: Option<usize>)
    ensures
        match r {
            Some(k) => k < potential@.len() && find_rec(potential@, id, 0) == k as int,
            None => find_rec(potential@, id, 0) == -1,
        },
{
    let mut k: usize = 0;
    while k < potential.len()
        invariant
            k <= potential@.len(),
            find_rec(potential@, id, 0) == find_rec(potential@, id, k as int),
        decreases potential@.len() - k,
    {
        if potential[k].rec_id == id {
            return Some(k);
        }
        k += 1;
    }
    None
}

/// Potential copies that `a` does not match stay as they are, and nothing
/// is reported.
proof fn lemma_pot_scan_no_match(
    cfg: DetectorConfig,
    log: Seq<Option<KernelRecord>>,
    d: DetectorModel,
    a: LogRecord,
    k: int,
)
    requires
        k <= d.potential.len(),
        !pot_scan(cfg, log, d, a, k).2,
    ensures
        pot_scan(cfg, log, d, a, k).0 == d,
        pot_scan(cfg, log, d, a, k).1 == Seq::<MemoryAccess>::empty(),
    decreases k,
{
    if k > 0 {
        let (d1, o1, m1) = pot_one(cfg, log, d, a, k - 1);
        assert(!m1);
        assert(d1 == d);
        lemma_pot_scan_no_match(cfg, log, d1, a, k - 1);
        assert(o1 + Seq::<MemoryAccess>::empty() =~= Seq::<MemoryAccess>::empty());
    }
}

impl CopyDetector {
    /// The settings.
    pub closed spec fn config(&self) -> DetectorConfig {
        self.config
    }

    /// The parsed kernel log, one entry per line.
    pub closed spec fn log(&self) -> Seq<Option<KernelRecord>> {
        self.log@
    }

    pub closed spec fn wf(&self) -> bool {
        &&& self.log_pos <= self.log@.len()
        &&& self.stale_dropped + self.window@.len() <= self.log_pos
    }

    /// A detector over the parsed kernel log `log`, its window filled from
    /// the first lines.
    pub fn new(log: Vec<Option<KernelRecord>>, config: DetectorConfig) -> (r: CopyDetector)
        ensures
            r.wf(),
            r.config() == config,
            r.log() == log@,
            r@ == initial(config, log@),
    {
        let n = if log.len() < config.window_size {
            log.len()
        } else {
            config.window_size
        };
        let mut window: Vec<KernelRecord> = Vec::new();
        let mut i: usize = 0;
        while i < n
            invariant
                i <= n <= log@.len(),
                window@ == somes(log@.take(i as int)),
                window@.len() <= i,
            decreases n - i,
        {
            assert(log@.take(i + 1).drop_last() =~= log@.take(i as int));
            if let Some(k) = log[i] {
                window.push(k);
            }
            i += 1;
        }
        CopyDetector {
            config,
            log,
            log_pos: n,
            stale_dropped: 0,
            window,
            potential: Vec::new(),
            ongoing: Vec::new(),
        }
    }

    /// Intents not matched so far: those still waiting in the window and
    /// those dropped from it as stale.
    pub fn unmatched_intents(&self) -> (r: usize)
        requires
            self.wf(),
        ensures
            r == self@.window.len() + self@.dropped,
    {
        self.window.len() + self.stale_dropped
    }

    /// Potential copies that were never confirmed.
    pub fn potential_copies(&self) -> (r: usize)
        ensures
            r == self@.potential.len(),
    {
        self.potential.len()
    }

    /// Ongoing copies that were never completed.
    pub fn unfinished_copies(&self) -> (r: usize)
        ensures
            r == self@.ongoing.len(),
    {
        self.ongoing.len()
    }

    /// The next line of the kernel log, if it holds an intent; the line is
    /// read either way.
    fn next_kernel_line(&mut self) -> (r: Option<KernelRecord>)
        requires
            old(self).wf(),
        ensures
            final(self).wf(),
            final(self).config == old(self).config,
            final(self).log == old(self).log,
            final(self).window == old(self).window,
            final(self).potential == old(self).potential,
            final(self).ongoing == old(self).ongoing,
            final(self).stale_dropped == old(self).stale_dropped,
            old(self).log_pos < old(self).log@.len() ==> r == old(self).log@[old(self).log_pos as int]
                && final(self).log_pos == old(self).log_pos + 1,
            old(self).log_pos >= old(self).log@.len() ==> r is None && final(self).log_pos
                == old(self).log_pos,
    {
        if self.log_pos < self.log.len() {
            let e = self.log[self.log_pos];
            self.log_pos += 1;
            e
        } else {
            None
        }
    }

    /// Retires intent `rec_id`, ages the window and refills it.
    fn remove_stale_copies(&mut self, rec_id: u64)
        requires
            old(self).wf(),
        ensures
            final(self).wf(),
            final(self).config == old(self).config,
            final(self).log == old(self).log,
            final(self)@ == retire(old(self).config, old(self).log@, old(self)@, rec_id),
    {
        let (w, drops) = update_stale(rec_id, &self.window, self.config.stale_threshold);
        self.window = w;
        self.stale_dropped = self.stale_dropped + drops;
        let ghost target = refill(w@, self.log@, self.log_pos as int, self.config.window_size as nat);
        while self.window.len() < self.config.window_size
            invariant_except_break
                refill(self.window@, self.log@, self.log_pos as int, self.config.window_size as nat)
                    == target,
            invariant
                self.wf(),
                self.config == old(self).config,
                self.log == old(self).log,
                self.potential == old(self).potential,
                self.ongoing == old(self).ongoing,
                self.stale_dropped == old(self).stale_dropped + stale_drops(
                    old(self).window@,
                    rec_id,
                    self.config.stale_threshold,
                ),
            ensures
                (self.window@, self.log_pos as int) == target,
            decreases self.log@.len() - self.log_pos,
        {
            if self.log_pos >= self.log.len() {
                break;
            }
            match self.next_kernel_line() {
                Some(k) => {
                    self.window.push(k);
                },
                None => {
                    break;
                },
            }
        }
        assert(self@ == retire(old(self).config, old(self).log@, old(self)@, rec_id));
    }

    /// Continues the first ongoing copy that `a` matches.
    fn part_of_ongoing_copy(&mut self, a: &LogRecord) -> (r: bool)
        requires
            old(self).wf(),
            a.size < 64,
        ensures
            final(self).wf(),
            final(self).config == old(self).config,
            final(self).log == old(self).log,
            match ongoing_after(old(self)@.ongoing, *a) {
                None => !r && final(self)@ == old(self)@,
                Some(o) => r && final(self)@ == DetectorModel { ongoing: o, ..old(self)@ },
            },
    {
        let mut idx: usize = 0;
        while idx < self.ongoing.len()
            invariant
                idx <= self.ongoing@.len(),
                self.ongoing == old(self).ongoing,
                self.config == old(self).config,
                self.log == old(self).log,
                self.log_pos == old(self).log_pos,
                self.window == old(self).window,
                self.potential == old(self).potential,
                self.stale_dropped == old(self).stale_dropped,
                self.wf(),
                a.size < 64,
                first_match_from(self.ongoing@, *a, 0) == first_match_from(
                    self.ongoing@,
                    *a,
                    idx as int,
                ),
            decreases self.ongoing@.len() - idx,
        {
            if mem_copy_match(a, &self.ongoing[idx]) {
                let done = update_copy(&mut self.ongoing, idx, a);
                if done {
                    self.ongoing.remove(idx);
                }
                proof {
                    let o = ongoing_after(old(self)@.ongoing, *a)->Some_0;
                    if done {
                        assert(self.ongoing@ =~= o);
                    } else {
                        assert(self.ongoing@ =~= o);
                    }
                    assert(self@ =~= DetectorModel { ongoing: o, ..old(self)@ });
                }
                return true;
            }
            idx += 1;
        }
        false
    }

    /// Continues the potential copies that `a` matches, from the last one
    /// down, appending what it reports to `out`.
    fn part_of_potential_copy(&mut self, a: &LogRecord, out: &mut Vec<MemoryAccess>) -> (r: bool)
        requires
            old(self).wf(),
            a.size < 64,
        ensures
            final(self).wf(),
            final(self).config == old(self).config,
            final(self).log == old(self).log,
            ({
                let (d, o, m) = pot_scan(
                    old(self).config,
                    old(self).log@,
                    old(self)@,
                    *a,
                    old(self)@.potential.len() as int,
                );
                final(self)@ == d && final(out)@ == old(out)@ + o && r == m
            }),
    {
        let ghost cfg = self.config;
        let ghost log = self.log@;
        let ghost target = pot_scan(cfg, log, self@, *a, self@.potential.len() as int);
        let mut i = self.potential.len();
        let mut consumed = false;
        assert(out@ =~= old(out)@ + Seq::<MemoryAccess>::empty());
        while i > 0
            invariant
                self.wf(),
                self.config == cfg,
                self.log@ == log,
                self.config == old(self).config,
                self.log == old(self).log,
                a.size < 64,
                i <= self@.potential.len(),
                ({
                    let (d, o, m) = pot_scan(cfg, log, self@, *a, i as int);
                    d == target.0 && old(out)@ + target.1 == out@ + o && target.2 == (consumed || m)
                }),
            decreases i,
        {
            i -= 1;
            let ghost before = self@;
            let ghost out_before = out@;
            if mem_copy_match(a, &self.potential[i]) {
                consumed = true;
                let done = update_copy(&mut self.potential, i, a);
                let c = self.potential[i];
                let ghost mid = self@;
                assert(c == advance(before.potential[i as int], *a));
                if done {
                    self.remove_stale_copies(c.rec_id);
                    out.push(print_rowclone(&c));
                    self.potential.remove(i);
                    proof {
                        let exp = pot_one(cfg, log, before, *a, i as int).0;
                        let r1 = retire(cfg, log, mid, c.rec_id);
                        let r2 = retire(cfg, log, before, c.rec_id);
                        assert(r1.window == r2.window && r1.log_pos == r2.log_pos);
                        assert(self@.potential =~= exp.potential);
                        assert(self@.window == exp.window);
                        assert(self@.ongoing == exp.ongoing);
                        assert(self@.log_pos == exp.log_pos);
                    }
                } else if copy_matched(&self.potential, i, self.config.confidence_threshold) {
                    self.remove_stale_copies(c.rec_id);
                    out.push(print_rowclone(&c));
                    push_ongoing_copy(&mut self.ongoing, &mut self.potential, i);
                    proof {
                        let exp = pot_one(cfg, log, before, *a, i as int).0;
                        let r1 = retire(cfg, log, mid, c.rec_id);
                        let r2 = retire(cfg, log, before, c.rec_id);
                        assert(r1.window == r2.window && r1.log_pos == r2.log_pos);
                        assert(self@.potential =~= exp.potential);
                        assert(self@.window == exp.window);
                        assert(self@.ongoing =~= exp.ongoing);
                        assert(self@.log_pos == exp.log_pos);
                    }
                } else {
                    proof {
                        assert(self@ =~= pot_one(cfg, log, before, *a, i as int).0);
                    }
                }
                proof {
                    assert(out@ =~= out_before + pot_one(cfg, log, before, *a, i as int).1);
                }
            }
            proof {
                let (d1, o1, m1) = pot_one(cfg, log, before, *a, i as int);
                let (d2, o2, m2) = pot_scan(cfg, log, d1, *a, i as int);
                assert(pot_scan(cfg, log, before, *a, i + 1) == (d2, o1 + o2, m1 || m2));
                assert(out_before + (o1 + o2) =~= (out_before + o1) + o2);
            }
        }
        consumed
    }

    /// Opens potential copies for the intents whose source `a` loads from.
    fn check_potential_copy_start(&mut self, a: &LogRecord) -> (r: bool)
        requires
            old(self).wf(),
            a.size < 64,
        ensures
            final(self).wf(),
            final(self).config == old(self).config,
            final(self).log == old(self).log,
            ({
                let (p, m) = start_scan(old(self)@.potential, old(self)@.window, *a, 0);
                final(self)@ == DetectorModel { potential: p, ..old(self)@ } && r == m
            }),
    {
        let ghost target = start_scan(self@.potential, self@.window, *a, 0);
        let mut consumed = false;
        let mut j: usize = 0;
        while j < self.window.len()
            invariant
                self.config == old(self).config,
                self.log == old(self).log,
                self.log_pos == old(self).log_pos,
                self.window == old(self).window,
                self.ongoing == old(self).ongoing,
                self.stale_dropped == old(self).stale_dropped,
                self.wf(),
                j <= self.window@.len(),
                a.size < 64,
                ({
                    let (p, m) = start_scan(self@.potential, self@.window, *a, j as int);
                    p == target.0 && target.1 == (consumed || m)
                }),
            decreases self.window@.len() - j,
        {
            let w = self.window[j];
            let ghost pot_before = self.potential@;
            let is_start = a.store == 0 && match w.operation {
                CopyOp::KernelToUser => w.kernel_address == a.address,
                CopyOp::UserToKernel => w.user_address == a.address,
            };
            if is_start {
                let found = find_potential(&self.potential, w.rec_id);
                if let Some(k) = found {
                    let c = self.potential[k];
                    if c.current_to == c.to {
                        self.potential.set(k, MemCpy { insn_count: a.insn_count, ..c });
                        consumed = true;
                    }
                } else {
                    let to = match w.operation {
                        CopyOp::UserToKernel => w.kernel_address,
                        CopyOp::KernelToUser => w.user_address,
                    };
                    let bytes = 1u64 << (a.size as u64);
                    self.potential.push(
                        MemCpy {
                            rec_id: w.rec_id,
                            insn_count: a.insn_count,
                            from: a.address,
                            to,
                            size: w.size,
                            current_from: wrapping_add(a.address, bytes),
                            current_to: to,
                            cpu: a.cpu as usize,
                        },
                    );
                    consumed = true;
                }
            }
            proof {
                assert(self.potential@ == start_one(pot_before, w, *a).0);
            }
            j += 1;
        }
        consumed
    }

    /// Feeds one access of the merged stream to the detector and returns
    /// what it emits: nothing when the access belongs to a copy, the copy
    /// records it reports, or the access itself.
    pub fn process(&mut self, a: LogRecord) -> (r: Vec<MemoryAccess>)
        requires
            old(self).wf(),
            a.size < 64,
        ensures
            final(self).wf(),
            final(self).config() == old(self).config(),
            final(self).log() == old(self).log(),
            (final(self)@, r@) == step(old(self).config(), old(self).log(), old(self)@, a),
    {
        let mut out: Vec<MemoryAccess> = Vec::new();
        if self.part_of_ongoing_copy(&a) {
            return out;
        }
        let ghost before = self@;
        if self.part_of_potential_copy(&a, &mut out) {
            return out;
        }
        proof {
            lemma_pot_scan_no_match(
                self.config,
                self.log@,
                before,
                a,
                before.potential.len() as int,
            );
            assert(out@ =~= Seq::<MemoryAccess>::empty());
        }
        if self.check_potential_copy_start(&a) {
            return out;
        }
        out.push(print_regular_access(&a));
        out
    }
}

/// Runs the detector over a whole stream of accesses.
pub fn match_copy_to_mem_accesses(
    log: Vec<Option<KernelRecord>>,
    config: DetectorConfig,
    accesses: &Vec<LogRecord>,
) -> (r: Vec<MemoryAccess>)
    requires
        forall|i: int| 0 <= i < accesses@.len() ==> (#[trigger] accesses@[i]).size < 64,
    ensures
        r@ == run(config, log@, initial(config, log@), accesses@).1,
{
    let ghost l = log@;
    let mut det = CopyDetector::new(log, config);
    let mut out: Vec<MemoryAccess> = Vec::new();
    let mut i: usize = 0;
    while i < accesses.len()
        invariant
            i <= accesses@.len(),
            det.wf(),
            det.config() == config,
            det.log() == l,
            forall|k: int| 0 <= k < accesses@.len() ==> (#[trigger] accesses@[k]).size < 64,
            (det@, out@) == run(config, l, initial(config, l), accesses@.take(i as int)),
        decreases accesses@.len() - i,
    {
        let emitted = det.process(accesses[i]);
        let mut j: usize = 0;
        let ghost out0 = out@;
        while j < emitted.len()
            invariant
                j <= emitted@.len(),
                out@ == out0 + emitted@.take(j as int),
            decreases emitted@.len() - j,
        {
            out.push(emitted[j]);
            j += 1;
            assert(emitted@.take(j as int) =~= emitted@.take(j - 1).push(emitted@[j - 1]));
        }
        assert(emitted@.take(j as int) =~= emitted@);
        assert(accesses@.take(i + 1).drop_last() =~= accesses@.take(i as int));
        i += 1;
    }
    assert(accesses@.take(i as int) =~= accesses@);
    out
}

/// The state after the intents `ids` were matched, in order.
pub open spec fn retire_all(
    cfg: DetectorConfig,
    log: Seq<Option<KernelRecord>>,
    d: DetectorModel,
    ids: Seq<u64>,
) -> DetectorModel
    decreases ids.len(),
{
    if ids.len() == 0 {
        d
    } else {
        retire(cfg, log, retire_all(cfg, log, d, ids.drop_last()), ids.last())
    }
}

proof fn lemma_sweep_ages(w: Seq<KernelRecord>, id: u64, threshold: u32, x: u64, e: KernelRecord)
    requires
        x < id,
        sweep(w, id, threshold).contains(e),
        e.rec_id == x,
    ensures
        e.stale <= threshold,
        exists|i: int| 0 <= i < w.len() && w[i].rec_id == x && e.stale == w[i].stale + 1,
    decreases w.len(),
{
    if w.len() > 0 {
        let rest = sweep(w.drop_last(), id, threshold);
        match swept(w.last(), id, threshold) {
            Some(y) => {
                if rest.contains(e) {
                    lemma_sweep_ages(w.drop_last(), id, threshold, x, e);
                    let i = choose|i: int|
                        0 <= i < w.drop_last().len() && w.drop_last()[i].rec_id == x && e.stale
                            == w.drop_last()[i].stale + 1;
                    assert(w[i] == w.drop_last()[i]);
                } else {
                    let k = choose|k: int| 0 <= k < rest.push(y).len() && rest.push(y)[k] == e;
                    assert(k == rest.len());
                    assert(w[w.len() - 1] == w.last());
                }
            },
            None => {
                lemma_sweep_ages(w.drop_last(), id, threshold, x, e);
                let i = choose|i: int|
                    0 <= i < w.drop_last().len() && w.drop_last()[i].rec_id == x && e.stale
                        == w.drop_last()[i].stale + 1;
                assert(w[i] == w.drop_last()[i]);
            },
        }
    }
}

proof fn lemma_refill_sources(w: Seq<KernelRecord>, log: Seq<Option<KernelRecord>>, pos: int, size: nat, e: KernelRecord)
    requires
        0 <= pos,
        refill(w, log, pos, size).0.contains(e),
    ensures
        refill(w, log, pos, size).1 >= pos,
        w.contains(e) || exists|p: int| pos <= p < log.len() && log[p] == Some(e),
    decreases log.len() - pos,
{
    if !(w.len() >= size || pos >= log.len()) {
        match log[pos] {
            None => {},
            Some(k) => {
                lemma_refill_sources(w.push(k), log, pos + 1, size, e);
                if w.push(k).contains(e) && !w.contains(e) {
                    let j = choose|j: int| 0 <= j < w.push(k).len() && w.push(k)[j] == e;
                    assert(j == w.len());
                }
            },
        }
    }
}

proof fn lemma_refill_pos(w: Seq<KernelRecord>, log: Seq<Option<KernelRecord>>, pos: int, size: nat)
    requires
        0 <= pos,
    ensures
        refill(w, log, pos, size).1 >= pos,
    decreases log.len() - pos,
{
    if !(w.len() >= size || pos >= log.len()) {
        match log[pos] {
            None => {},
            Some(k) => {
                lemma_refill_pos(w.push(k), log, pos + 1, size);
            },
        }
    }
}

proof fn lemma_retire_all_ages(
    cfg: DetectorConfig,
    log: Seq<Option<KernelRecord>>,
    d: DetectorModel,
    ids: Seq<u64>,
    x: u64,
)
    requires
        0 <= d.log_pos,
        forall|j: int| 0 <= j < ids.len() ==> x < #[trigger] ids[j],
        forall|p: int| d.log_pos <= p < log.len() && #[trigger] log[p] is Some ==> log[p]->Some_0.rec_id != x,
    ensures
        retire_all(cfg, log, d, ids).log_pos >= d.log_pos,
        forall|i: int|
            0 <= i < retire_all(cfg, log, d, ids).window.len() && (#[trigger] retire_all(cfg, log, d, ids).window[i]).rec_id
                == x ==> retire_all(cfg, log, d, ids).window[i].stale >= ids.len() && (ids.len() > 0
                ==> retire_all(cfg, log, d, ids).window[i].stale <= cfg.stale_threshold),
    decreases ids.len(),
{
    if ids.len() > 0 {
        let prev = ids.drop_last();
        lemma_retire_all_ages(cfg, log, d, prev, x);
        let dp = retire_all(cfg, log, d, prev);
        let id = ids.last();
        assert(x < ids[ids.len() - 1]);
        let sw = sweep(dp.window, id, cfg.stale_threshold);
        lemma_refill_pos(sw, log, dp.log_pos, cfg.window_size as nat);
        let dn = retire_all(cfg, log, d, ids);
        assert forall|i: int|
            0 <= i < dn.window.len() && (#[trigger] dn.window[i]).rec_id == x implies dn.window[i].stale
                >= ids.len() && dn.window[i].stale <= cfg.stale_threshold by {
            let e = dn.window[i];
            assert(dn.window.contains(e));
            lemma_refill_sources(sw, log, dp.log_pos, cfg.window_size as nat, e);
            if sw.contains(e) {
                lemma_sweep_ages(dp.window, id, cfg.stale_threshold, x, e);
                let j = choose|j: int|
                    0 <= j < dp.window.len() && dp.window[j].rec_id == x && e.stale == dp.window[j].stale
                        + 1;
                assert(dp.window[j].stale >= prev.len());
            } else {
                let p = choose|p: int| dp.log_pos <= p < log.len() && log[p] == Some(e);
                assert(log[p] is Some);
            }
        }
    }
}

proof fn lemma_sweep_keeps_or_counts(w: Seq<KernelRecord>, id: u64, threshold: u32, i: int)
    requires
        0 <= i < w.len(),
        w[i].rec_id != id,
    ensures
        (swept(w[i], id, threshold) is Some && sweep(w, id, threshold).contains(
            swept(w[i], id, threshold)->Some_0,
        )) || stale_drops(w, id, threshold) >= 1,
    decreases w.len(),
{
    let rest = w.drop_last();
    if i == w.len() - 1 {
        if let Some(y) = swept(w.last(), id, threshold) {
            assert(sweep(w, id, threshold) == sweep(rest, id, threshold).push(y));
            assert(sweep(w, id, threshold)[sweep(rest, id, threshold).len() as int] == y);
        }
    } else {
        assert(rest[i] == w[i]);
        lemma_sweep_keeps_or_counts(rest, id, threshold, i);
        if swept(w[i], id, threshold) is Some && sweep(rest, id, threshold).contains(
            swept(w[i], id, threshold)->Some_0,
        ) {
            let y = swept(w[i], id, threshold)->Some_0;
            let k = choose|k: int| 0 <= k < sweep(rest, id, threshold).len() && sweep(rest, id, threshold)[k] == y;
            match swept(w.last(), id, threshold) {
                Some(z) => {
                    assert(sweep(w, id, threshold)[k] == y);
                },
                None => {},
            }
        }
    }
}

proof fn lemma_refill_keeps(w: Seq<KernelRecord>, log: Seq<Option<KernelRecord>>, pos: int, size: nat, e: KernelRecord)
    requires
        w.contains(e),
    ensures
        refill(w, log, pos, size).0.contains(e),
    decreases log.len() - pos,
{
    if !(w.len() >= size || pos < 0 || pos >= log.len()) {
        match log[pos] {
            None => {},
            Some(k) => {
                let j = choose|j: int| 0 <= j < w.len() && w[j] == e;
                assert(w.push(k)[j] == e);
                lemma_refill_keeps(w.push(k), log, pos + 1, size, e);
            },
        }
    }
}

proof fn lemma_retire_all_reports(
    cfg: DetectorConfig,
    log: Seq<Option<KernelRecord>>,
    d: DetectorModel,
    ids: Seq<u64>,
    x: u64,
)
    requires
        forall|j: int| 0 <= j < ids.len() ==> x < #[trigger] ids[j],
        exists|i: int| 0 <= i < d.window.len() && (#[trigger] d.window[i]).rec_id == x,
    ensures
        retire_all(cfg, log, d, ids).dropped > d.dropped || exists|i: int|
            0 <= i < retire_all(cfg, log, d, ids).window.len() && (#[trigger] retire_all(
                cfg,
                log,
                d,
                ids,
            ).window[i]).rec_id == x,
        retire_all(cfg, log, d, ids).dropped >= d.dropped,
    decreases ids.len(),
{
    if ids.len() > 0 {
        let prev = ids.drop_last();
        lemma_retire_all_reports(cfg, log, d, prev, x);
        let dp = retire_all(cfg, log, d, prev);
        let id = ids.last();
        assert(x < ids[ids.len() - 1]);
        let dn = retire_all(cfg, log, d, ids);
        if dp.dropped <= d.dropped {
            let i = choose|i: int| 0 <= i < dp.window.len() && (#[trigger] dp.window[i]).rec_id == x;
            lemma_sweep_keeps_or_counts(dp.window, id, cfg.stale_threshold, i);
            if stale_drops(dp.window, id, cfg.stale_threshold) == 0 {
                let y = swept(dp.window[i], id, cfg.stale_threshold)->Some_0;
                let sw = sweep(dp.window, id, cfg.stale_threshold);
                lemma_refill_keeps(sw, log, dp.log_pos, cfg.window_size as nat, y);
                let k = choose|k: int| 0 <= k < dn.window.len() && dn.window[k] == y;
                assert(dn.window[k].rec_id == x);
            }
        }
    }
}

/// An intent that stays unmatched while more than the staleness threshold
/// of newer intents are matched has left the window and is counted among
/// the intents dropped as stale, when the part of the kernel log still
/// unread does not declare it again.
pub proof fn lemma_stale_intent_leaves_window(
    cfg: DetectorConfig,
    log: Seq<Option<KernelRecord>>,
    d: DetectorModel,
    ids: Seq<u64>,
    x: u64,
)
    requires
        0 <= d.log_pos,
        ids.len() > cfg.stale_threshold,
        forall|j: int| 0 <= j < ids.len() ==> x < #[trigger] ids[j],
        forall|p: int| d.log_pos <= p < log.len() && #[trigger] log[p] is Some ==> log[p]->Some_0.rec_id != x,
    ensures
        forall|i: int|
            0 <= i < retire_all(cfg, log, d, ids).window.len() ==> (#[trigger] retire_all(cfg, log, d, ids).window[i]).rec_id
                != x,
        (exists|i: int| 0 <= i < d.window.len() && (#[trigger] d.window[i]).rec_id == x)
            ==> retire_all(cfg, log, d, ids).dropped > d.dropped,
{
    lemma_retire_all_ages(cfg, log, d, ids, x);
    if exists|i: int| 0 <= i < d.window.len() && (#[trigger] d.window[i]).rec_id == x {
        lemma_retire_all_reports(cfg, log, d, ids, x);
    }
}

/// Whether `trace` is `n` loads of `1 << c` bytes each from `a` upward,
/// then `n` such stores from `b` upward.
pub open spec fn clean_copy_trace(trace: Seq<LogRecord>, c: u8, n: nat, a: u64, b: u64) -> bool {
    let bytes = access_bytes(LogRecord { insn_count: 0, cpu: 0, store: 0, size: c, address: 0 }) as int;
    &&& trace.len() == 2 * n
    &&& forall|j: int|
        0 <= j < n ==> {
            &&& (#[trigger] trace[j]).store == 0
            &&& trace[j].size == c
            &&& trace[j].address == a + j * bytes
        }
    &&& forall|j: int|
        0 <= j < n ==> {
            &&& (#[trigger] trace[n + j]).store == 1
            &&& trace[n + j].size == c
            &&& trace[n + j].address == b + j * bytes
        }
}

/// The copy followed after `k` accesses of a clean trace, with `f` bytes
/// seen on the load side and `t` on the store side.
pub open spec fn clean_cursor(start: MemCpy, a: u64, b: u64, f: int, t: int) -> MemCpy {
    MemCpy { current_from: (a + f) as u64, current_to: (b + t) as u64, ..start }
}

/// The state and output after the first `k` accesses of a clean trace.
pub open spec fn clean_phase(
    cfg: DetectorConfig,
    start: MemCpy,
    a: u64,
    b: u64,
    n: nat,
    bytes: int,
    k: int,
    st: DetectorModel,
    out: Seq<MemoryAccess>,
) -> bool {
    let size = n * bytes;
    let thr = cfg.confidence_threshold as int;
    if k <= n {
        &&& st.potential == seq![clean_cursor(start, a, b, k * bytes, 0)]
        &&& st.ongoing == Seq::<MemCpy>::empty()
        &&& out == Seq::<MemoryAccess>::empty()
    } else if k - n < n && !((k - n) * bytes > thr && size > thr) {
        &&& st.potential == seq![clean_cursor(start, a, b, size, (k - n) * bytes)]
        &&& st.ongoing == Seq::<MemCpy>::empty()
        &&& out == Seq::<MemoryAccess>::empty()
    } else if k - n < n {
        &&& st.potential == Seq::<MemCpy>::empty()
        &&& st.ongoing == seq![clean_cursor(start, a, b, size, (k - n) * bytes)]
        &&& out == seq![copy_record(start)]
    } else {
        out == seq![copy_record(start)]
    }
}

proof fn lemma_wrap_add_small(x: u64, y: u64)
    requires
        x + y < 0x1_0000_0000_0000_0000,
    ensures
        wrap_add(x, y) == x + y,
{
    vstd::arithmetic::div_mod::lemma_small_mod((x + y) as nat, 0x1_0000_0000_0000_0000);
}

proof fn lemma_start_scan_none(p: Seq<MemCpy>, window: Seq<KernelRecord>, a: LogRecord, j: int)
    requires
        0 <= j,
        forall|i: int| j <= i < window.len() ==> !is_copy_start(#[trigger] window[i], a),
    ensures
        start_scan(p, window, a, j) == (p, false),
    decreases window.len() - j,
{
    if j < window.len() {
        lemma_start_scan_none(p, window, a, j + 1);
    }
}

proof fn lemma_start_scan_one(window: Seq<KernelRecord>, a: LogRecord, wi: int, j: int)
    requires
        0 <= j <= wi < window.len(),
        is_copy_start(window[wi], a),
        forall|i: int| j <= i < window.len() && i != wi ==> !is_copy_start(#[trigger] window[i], a),
    ensures
        start_scan(Seq::empty(), window, a, j) == (seq![new_copy(window[wi], a)], true),
    decreases window.len() - j,
{
    if j < wi {
        lemma_start_scan_one(window, a, wi, j + 1);
    } else {
        assert(find_rec(Seq::<MemCpy>::empty(), window[wi].rec_id, 0) == -1);
        assert(Seq::<MemCpy>::empty().push(new_copy(window[wi], a)) =~= seq![new_copy(window[wi], a)]);
        lemma_start_scan_none(seq![new_copy(window[wi], a)], window, a, j + 1);
    }
}

proof fn lemma_clean_prefix(
    cfg: DetectorConfig,
    log: Seq<Option<KernelRecord>>,
    d: DetectorModel,
    wi: int,
    c: u8,
    n: nat,
    trace: Seq<LogRecord>,
    k: int,
)
    requires
        c < 64,
        n >= 1,
        d.potential == Seq::<MemCpy>::empty(),
        d.ongoing == Seq::<MemCpy>::empty(),
        0 <= wi < d.window.len(),
        forall|i: int|
            0 <= i < d.window.len() && i != wi ==> source_address(#[trigger] d.window[i])
                != source_address(d.window[wi]),
        d.window[wi].size == n * access_bytes(trace[0]),
        source_address(d.window[wi]) + n * access_bytes(trace[0]) < 0x1_0000_0000_0000_0000,
        dest_address(d.window[wi]) + n * access_bytes(trace[0]) < 0x1_0000_0000_0000_0000,
        clean_copy_trace(trace, c, n, source_address(d.window[wi]), dest_address(d.window[wi])),
        1 <= k <= 2 * n,
    ensures
        ({
            let (st, out) = run(cfg, log, d, trace.take(k));
            clean_phase(
                cfg,
                new_copy(d.window[wi], trace[0]),
                source_address(d.window[wi]),
                dest_address(d.window[wi]),
                n,
                access_bytes(trace[0]) as int,
                k,
                st,
                out,
            )
        }),
    decreases k,
{
    let w = d.window[wi];
    let a = source_address(w);
    let b = dest_address(w);
    let x0 = trace[0];
    let bytes = access_bytes(x0) as int;
    let start = new_copy(w, x0);
    let size = n * bytes;
    let thr = cfg.confidence_threshold as int;
    assert(access_bytes(x0) == access_bytes(
        LogRecord { insn_count: 0, cpu: 0, store: 0, size: c, address: 0 },
    ));
    assert(x0.size == c);
    assert(1 <= (1u64 << (c as u64))) by (bit_vector)
        requires
            c < 64,
    ;
    assert(bytes >= 1);
    assert(size >= bytes) by (nonlinear_arith)
        requires
            n >= 1,
            bytes >= 1,
            size == n * bytes,
    ;
    reveal_with_fuel(pot_scan, 2);
    let acc = trace.take(k);
    assert(acc.drop_last() =~= trace.take(k - 1));
    assert(acc.last() == trace[k - 1]);
    let x = trace[k - 1];
    assert(access_bytes(x) == access_bytes(x0)) by {
        if k - 1 < n {
            assert(trace[k - 1].size == c);
        } else {
            assert(trace[n + (k - 1 - n)].size == c);
        }
    }
    if k == 1 {
        assert(trace.take(0) =~= Seq::<LogRecord>::empty());
        assert(x == x0);
        assert(x0.address == a + 0 * bytes);
        assert(is_copy_start(w, x0));
        assert forall|i: int| 0 <= i < d.window.len() && i != wi implies !is_copy_start(
            #[trigger] d.window[i],
            x0,
        ) by {}
        lemma_start_scan_one(d.window, x0, wi, 0);
        lemma_wrap_add_small(a, bytes as u64);
        assert(start == clean_cursor(start, a, b, 1 * bytes, 0));
        assert(Seq::<MemoryAccess>::empty() + Seq::<MemoryAccess>::empty() =~= Seq::<MemoryAccess>::empty());
    } else {
        lemma_clean_prefix(cfg, log, d, wi, c, n, trace, k - 1);
        let (st, out) = run(cfg, log, d, trace.take(k - 1));
        let (st2, o2) = step(cfg, log, st, x);
        assert(run(cfg, log, d, acc) == (st2, out + o2));
        if k - 1 < n {
            // another load
            let j = k - 1;
            assert(x.address == a + j * bytes && x.store == 0);
            let cur = clean_cursor(start, a, b, j * bytes, 0);
            assert((j + 1) * bytes == j * bytes + bytes) by (nonlinear_arith);
            assert(j * bytes + bytes <= size) by (nonlinear_arith)
                requires
                    j + 1 <= n,
                    size == n * bytes,
                    bytes >= 1,
            ;
            assert(j * bytes >= 0) by (nonlinear_arith)
                requires
                    j >= 0,
                    bytes >= 1,
            ;
            lemma_wrap_add_small(cur.current_from, bytes as u64);
            assert(first_match_from(Seq::<MemCpy>::empty(), x, 0) == -1);
            let c2 = advance(cur, x);
            assert(c2 == clean_cursor(start, a, b, (j + 1) * bytes, 0));
            assert(!copy_done(c2));
            assert(!copy_confident(c2, cfg.confidence_threshold));
            assert(pot_scan(cfg, log, st, x, 1) == (
                DetectorModel { potential: st.potential.update(0, c2), ..st },
                Seq::<MemoryAccess>::empty(),
                true,
            )) by {
                assert(pot_one(cfg, log, st, x, 0).2);
                assert(Seq::<MemoryAccess>::empty() + Seq::<MemoryAccess>::empty() =~= Seq::<
                    MemoryAccess,
                >::empty());
            }
            assert(st.potential.update(0, c2) =~= seq![c2]);
            assert(out + o2 =~= Seq::<MemoryAccess>::empty());
        } else {
            // a store
            let j = k - 1 - n;
            assert(x == trace[n + j]);
            assert(x.address == b + j * bytes && x.store == 1);
            assert((j + 1) * bytes == j * bytes + bytes) by (nonlinear_arith);
            assert(j * bytes + bytes <= size) by (nonlinear_arith)
                requires
                    j + 1 <= n,
                    size == n * bytes,
                    bytes >= 1,
            ;
            assert(j * bytes >= 0) by (nonlinear_arith)
                requires
                    j >= 0,
                    bytes >= 1,
            ;
            assert((j + 1 < n) ==> (j + 1) * bytes < size) by (nonlinear_arith)
                requires
                    size == n * bytes,
                    bytes >= 1,
            ;
            let cur = clean_cursor(start, a, b, size, j * bytes);
            lemma_wrap_add_small(cur.current_to, bytes as u64);
            let c2 = advance(cur, x);
            assert(c2 == clean_cursor(start, a, b, size, (j + 1) * bytes));
            assert(copy_record(c2) == copy_record(start));
            if j == 0 && k - 1 == n {
                assert(st.potential == seq![clean_cursor(start, a, b, size, 0)]);
            }
            if !(j * bytes > thr && size > thr) {
                // still a potential copy
                assert(st.potential == seq![cur]);
                assert(first_match_from(st.ongoing, x, 0) == -1);
                let (d1, o1, m1) = pot_one(cfg, log, st, x, 0);
                assert(m1);
                assert(pot_scan(cfg, log, st, x, 1) == (d1, o1 + Seq::<MemoryAccess>::empty(), m1));
                assert(o1 + Seq::<MemoryAccess>::empty() =~= o1);
                if copy_done(c2) {
                    assert(j + 1 == n);
                    assert(d1.potential =~= Seq::<MemCpy>::empty());
                    assert(out + o2 =~= seq![copy_record(start)]);
                } else if copy_confident(c2, cfg.confidence_threshold) {
                    assert(d1.potential =~= Seq::<MemCpy>::empty());
                    assert(d1.ongoing =~= seq![c2]);
                    assert(out + o2 =~= seq![copy_record(start)]);
                } else {
                    assert(d1.potential =~= seq![c2]);
                    assert(out + o2 =~= Seq::<MemoryAccess>::empty());
                }
            } else {
                // an ongoing copy
                assert(j < n);
                assert(st.ongoing == seq![cur]);
                assert(first_match_from(st.ongoing, x, 0) == 0);
                assert((j + 1) * bytes > thr);
                assert(out + o2 =~= seq![copy_record(start)]);
                if copy_done(c2) {
                    assert(st.ongoing.remove(0) =~= Seq::<MemCpy>::empty());
                } else {
                    assert(st.ongoing.update(0, c2) =~= seq![c2]);
                }
            }
        }
    }
}

/// Given a declared copy of `n` blocks of `1 << c` bytes from `a` to `b` in
/// the window, and no other intent there that reads from `a`, a trace of the
/// `n` loads from `a` followed by the `n` stores to `b` makes the detector
/// emit exactly one copy record, from `a` to `b`, and nothing else: all the
/// loads and stores are consumed.
pub proof fn lemma_clean_copy_detected(
    cfg: DetectorConfig,
    log: Seq<Option<KernelRecord>>,
    d: DetectorModel,
    wi: int,
    c: u8,
    n: nat,
    trace: Seq<LogRecord>,
)
    requires
        c < 64,
        n >= 1,
        d.potential == Seq::<MemCpy>::empty(),
        d.ongoing == Seq::<MemCpy>::empty(),
        0 <= wi < d.window.len(),
        forall|i: int|
            0 <= i < d.window.len() && i != wi ==> source_address(#[trigger] d.window[i])
                != source_address(d.window[wi]),
        d.window[wi].size == n * access_bytes(trace[0]),
        source_address(d.window[wi]) + n * access_bytes(trace[0]) < 0x1_0000_0000_0000_0000,
        dest_address(d.window[wi]) + n * access_bytes(trace[0]) < 0x1_0000_0000_0000_0000,
        clean_copy_trace(trace, c, n, source_address(d.window[wi]), dest_address(d.window[wi])),
    ensures
        run(cfg, log, d, trace).1 == seq![
            MemoryAccess::Rowclone(
                RowcloneRecord {
                    insn_count: trace[0].insn_count,
                    from: source_address(d.window[wi]),
                    to: dest_address(d.window[wi]),
                    cpu: trace[0].cpu as usize,
                },
            ),
        ],
{
    lemma_clean_prefix(cfg, log, d, wi, c, n, trace, 2 * n as int);
    assert(trace.take(2 * n as int) =~= trace);
    assert(trace[0].address == source_address(d.window[wi]) + 0 * access_bytes(trace[0]));
}

} // verus!
