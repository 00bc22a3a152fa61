//! Log rotation: log files are tracked with a size limit and a number of
//! rotated copies to keep; when a file outgrows its limit it is rotated
//! (`f.N-1` to `f.N`, ..., `f` to `f.1`, and `f` starts empty). The file
//! system work is described here as plans of moves for the caller to run.
use vstd::prelude::*;
use vstd::string::*;
use crate::text::{string_of, str_eq, push_dec, dec};

verus! {

/// A rotated log file.
pub struct RotateConfig {
    /// Path of the live file, e.g. `/var/log/kernel.log`.
    pub path: String,
    /// Size in bytes beyond which the file is rotated.
    pub max_size: usize,
    /// Rotated copies kept (`.1` to `.keep_count`).
    pub keep_count: usize,
    /// Whether rotated copies would be compressed (nothing is compressed).
    pub compress: bool,
}

pub const MAX_CONFIGS: usize = 16;
pub const DEFAULT_MAX_SIZE: usize = 8192;
pub const DEFAULT_KEEP_COUNT: usize = 4;

/// A config as plain values.
pub struct ConfigModel {
    pub path: Seq<char>,
    pub max_size: usize,
    pub keep_count: usize,
    pub compress: bool,
}

impl RotateConfig {
    pub open spec fn model(&self) -> ConfigModel {
        ConfigModel { path: self.path@, max_size: self.max_size, keep_count: self.keep_count, compress: self.compress }
    }
}

/// The tracked files with their current sizes and rotation counts (one
/// entry per file in each list), and the rotations done in all.
pub struct LogTracker {
    pub configs: Vec<RotateConfig>,
    pub current_sizes: Vec<usize>,
    pub rotation_counts: Vec<usize>,
    pub total_rotations: usize,
}

pub open spec fn configs_view(v: Seq<RotateConfig>) -> Seq<ConfigModel> {
    v.map_values(|c: RotateConfig| c.model())
}

impl LogTracker {
    pub open spec fn cfgs(&self) -> Seq<ConfigModel> {
        configs_view(self.configs@)
    }

    /// The three lists run in step.
    pub open spec fn wf(&self) -> bool {
        &&& self.current_sizes@.len() == self.configs@.len()
        &&& self.rotation_counts@.len() == self.configs@.len()
    }

    /// No files tracked.
    pub fn new() -> (t: Self)
        ensures
            t.wf(),
            t.configs@.len() == 0,
            t.total_rotations == 0,
    {
        LogTracker { configs: Vec::new(), current_sizes: Vec::new(), rotation_counts: Vec::new(), total_rotations: 0 }
    }
}

/// Index of the first file from `j` on with path `p` (the length when none).
pub open spec fn path_index(cs: Seq<ConfigModel>, p: Seq<char>, j: int) -> int
    decreases cs.len() - j,
{
    if j < 0 || j >= cs.len() {
        cs.len() as int
    } else if cs[j].path == p {
        j
    } else {
        path_index(cs, p, j + 1)
    }
}

proof fn lemma_path_index(cs: Seq<ConfigModel>, p: Seq<char>, j: int)
    requires
        0 <= j <= cs.len(),
    ensures
        j <= path_index(cs, p, j) <= cs.len(),
        path_index(cs, p, j) < cs.len() ==> cs[path_index(cs, p, j)].path == p,
    decreases cs.len() - j,
{
    if j < cs.len() && cs[j].path != p {
        lemma_path_index(cs, p, j + 1);
    }
}

fn find_path(t: &LogTracker, path: &str) -> (r: usize)
    ensures
        r == path_index(t.cfgs(), path@, 0),
        r <= t.configs@.len(),
{
    proof {
        lemma_path_index(t.cfgs(), path@, 0);
    }
    let n = t.configs.len();
    let mut i: usize = 0;
    while i < n
        invariant
            n == t.configs@.len(),
            i <= n,
            path_index(t.cfgs(), path@, 0) == path_index(t.cfgs(), path@, i as int),
        decreases n - i,
    {
        assert(t.cfgs()[i as int].path == t.configs@[i as int].path@);
        if str_eq(t.configs[i].path.as_str(), path) {
            return i;
        }
        i = i + 1;
    }
    n
}

fn push_config(t: &mut LogTracker, path: &str, max_size: usize, keep_count: usize)
    requires
        old(t).wf(),
    ensures
        final(t).wf(),
        final(t).cfgs() == old(t).cfgs().push(ConfigModel { path: path@, max_size, keep_count, compress: false }),
        final(t).current_sizes@ == old(t).current_sizes@.push(0),
        final(t).rotation_counts@ == old(t).rotation_counts@.push(0),
        final(t).total_rotations == old(t).total_rotations,
{
    let c = RotateConfig { path: string_of(path), max_size, keep_count, compress: false };
    t.configs.push(c);
    t.current_sizes.push(0);
    t.rotation_counts.push(0);
    assert(t.cfgs() =~= old(t).cfgs().push(c.model()));
}

/// The files tracked from the start.
pub open spec fn default_configs() -> Seq<ConfigModel> {
    seq![
        ConfigModel { path: "/var/log/kernel.log"@, max_size: DEFAULT_MAX_SIZE, keep_count: DEFAULT_KEEP_COUNT, compress: false },
        ConfigModel { path: "/var/log/auth.log"@, max_size: 4096, keep_count: 4, compress: false },
        ConfigModel { path: "/var/log/syslog"@, max_size: DEFAULT_MAX_SIZE, keep_count: DEFAULT_KEEP_COUNT, compress: false },
    ]
}

/// Track the kernel, auth and system logs (the caller creates `/var/log`).
pub fn init(t: &mut LogTracker)
    requires
        old(t).wf(),
    ensures
        final(t).wf(),
        final(t).cfgs() == old(t).cfgs() + default_configs(),
        final(t).current_sizes@ == old(t).current_sizes@ + seq![0usize, 0usize, 0usize],
        final(t).rotation_counts@ == old(t).rotation_counts@ + seq![0usize, 0usize, 0usize],
        final(t).total_rotations == old(t).total_rotations,
{
    push_config(t, "/var/log/kernel.log", DEFAULT_MAX_SIZE, DEFAULT_KEEP_COUNT);
    push_config(t, "/var/log/auth.log", 4096, 4);
    push_config(t, "/var/log/syslog", DEFAULT_MAX_SIZE, DEFAULT_KEEP_COUNT);
    assert(t.cfgs() =~= old(t).cfgs() + default_configs());
    assert(t.current_sizes@ =~= old(t).current_sizes@ + seq![0usize, 0usize, 0usize]);
    assert(t.rotation_counts@ =~= old(t).rotation_counts@ + seq![0usize, 0usize, 0usize]);
}

/// Track a new log file; at most `MAX_CONFIGS`, each path once.
pub fn register(t: &mut LogTracker, path: &str, max_size: usize, keep_count: usize) -> (r: Result<(), &'static str>)
    requires
        old(t).wf(),
    ensures
        final(t).wf(),
        final(t).total_rotations == old(t).total_rotations,
        old(t).configs@.len() >= MAX_CONFIGS ==> (r matches Err(e) && e@ == "log_rotate: max configs reached"@
            && *final(t) == *old(t)),
        old(t).configs@.len() < MAX_CONFIGS && path_index(old(t).cfgs(), path@, 0) < old(t).configs@.len()
            ==> (r matches Err(e) && e@ == "log_rotate: already registered"@ && *final(t) == *old(t)),
        old(t).configs@.len() < MAX_CONFIGS && path_index(old(t).cfgs(), path@, 0) >= old(t).configs@.len() ==> {
            &&& r is Ok
            &&& final(t).cfgs() == old(t).cfgs().push(ConfigModel { path: path@, max_size, keep_count, compress: false })
            &&& final(t).current_sizes@ == old(t).current_sizes@.push(0)
            &&& final(t).rotation_counts@ == old(t).rotation_counts@.push(0)
        },
{
    if t.configs.len() >= MAX_CONFIGS {
        return Err("log_rotate: max configs reached");
    }
    if find_path(t, path) < t.configs.len() {
        return Err("log_rotate: already registered");
    }
    push_config(t, path, max_size, keep_count);
    Ok(())
}

/// `path.i`.
pub open spec fn numbered(path: Seq<char>, i: nat) -> Seq<char> {
    path + "."@ + dec(i)
}

/// The moves of a rotation that keeps `keep` copies: `path.i` to
/// `path.(i+1)` for `i` from `keep - 1` down to 1.
pub open spec fn shift_moves(path: Seq<char>, keep: nat) -> Seq<(Seq<char>, Seq<char>)>
    decreases keep,
{
    if keep <= 1 {
        Seq::empty()
    } else {
        seq![(numbered(path, (keep - 1) as nat), numbered(path, keep))] + shift_moves(path, (keep - 1) as nat)
    }
}

fn numbered_path(path: &str, i: usize) -> (r: String)
    ensures
        r@ == numbered(path@, i as nat),
{
    let mut s = string_of(path);
    s.append(".");
    push_dec(&mut s, i as u64);
    s
}

/// What a rotation of a file does to the tracker: its size goes to 0 and
/// its rotation count and the total count go up.
pub open spec fn rotated(t: LogTracker, i: int) -> (Seq<usize>, Seq<usize>, usize) {
    (t.current_sizes@.update(i, 0), t.rotation_counts@.update(i, (t.rotation_counts@[i] + 1) as usize),
        (t.total_rotations + 1) as usize)
}

/// Rotate a tracked file: gives the moves of its older copies, oldest
/// first (`path.(keep-1)` to `path.keep`, ..., `path.1` to `path.2`),
/// after which the caller copies `path` to `path.1` and empties `path`.
/// `None` (and nothing changes) for an untracked file.
pub fn rotate(t: &mut LogTracker, path: &str) -> (r: Option<Vec<(String, String)>>)
    requires
        old(t).wf(),
        old(t).total_rotations < usize::MAX,
        forall|i: int| 0 <= i < old(t).rotation_counts@.len() ==> #[trigger] old(t).rotation_counts@[i] < usize::MAX,
    ensures
        final(t).wf(),
        final(t).configs@ == old(t).configs@,
        ({
            let i = path_index(old(t).cfgs(), path@, 0);
            if i < old(t).configs@.len() {
                &&& r matches Some(m) && m@.map_values(|p: (String, String)| (p.0@, p.1@))
                        == shift_moves(path@, old(t).cfgs()[i].keep_count as nat)
                &&& (final(t).current_sizes@, final(t).rotation_counts@, final(t).total_rotations) == rotated(*old(t), i)
            } else {
                r is None && *final(t) == *old(t)
            }
        }),
{
    let i = find_path(t, path);
    if i >= t.configs.len() {
        return None;
    }
    proof {
        lemma_path_index(old(t).cfgs(), path@, 0);
    }
    let keep = t.configs[i].keep_count;
    assert(old(t).cfgs()[i as int].keep_count == keep);
    let mut moves: Vec<(String, String)> = Vec::new();
    let mut k: usize = keep;
    while k > 1
        invariant
            k <= keep,
            moves@.map_values(|p: (String, String)| (p.0@, p.1@)) + shift_moves(path@, k as nat)
                == shift_moves(path@, keep as nat),
        decreases k,
    {
        let ghost before = moves@.map_values(|p: (String, String)| (p.0@, p.1@));
        let from = numbered_path(path, k - 1);
        let to = numbered_path(path, k);
        moves.push((from, to));
        assert(moves@.map_values(|p: (String, String)| (p.0@, p.1@)) =~= before.push((from@, to@)));
        assert(before.push((from@, to@)) + shift_moves(path@, (k - 1) as nat)
            =~= before + shift_moves(path@, k as nat));
        k = k - 1;
    }
    assert(shift_moves(path@, k as nat) =~= Seq::<(Seq<char>, Seq<char>)>::empty());
    assert(moves@.map_values(|p: (String, String)| (p.0@, p.1@)) + Seq::<(Seq<char>, Seq<char>)>::empty()
        =~= moves@.map_values(|p: (String, String)| (p.0@, p.1@)));
    t.current_sizes.set(i, 0);
    let c = t.rotation_counts[i];
    t.rotation_counts.set(i, c + 1);
    t.total_rotations = t.total_rotations + 1;
    Some(moves)
}

/// Account `len` more bytes appended to a file; true when that takes it
/// over its limit, in which case the caller rotates it before writing.
/// Untracked files are not counted.
pub fn append(t: &mut LogTracker, path: &str, len: usize) -> (r: bool)
    requires
        old(t).wf(),
        forall|i: int| 0 <= i < old(t).current_sizes@.len() ==> #[trigger] old(t).current_sizes@[i] + len <= usize::MAX,
    ensures
        final(t).wf(),
        final(t).configs@ == old(t).configs@,
        final(t).rotation_counts@ == old(t).rotation_counts@,
        final(t).total_rotations == old(t).total_rotations,
        ({
            let i = path_index(old(t).cfgs(), path@, 0);
            if i < old(t).configs@.len() {
                let size = (old(t).current_sizes@[i] + len) as usize;
                &&& final(t).current_sizes@ == old(t).current_sizes@.update(i, size)
                &&& r == (size > old(t).cfgs()[i].max_size)
            } else {
                !r && final(t).current_sizes@ == old(t).current_sizes@
            }
        }),
{
    let i = find_path(t, path);
    if i >= t.configs.len() {
        return false;
    }
    assert(old(t).cfgs()[i as int].max_size == t.configs@[i as int].max_size);
    let size = t.current_sizes[i] + len;
    t.current_sizes.set(i, size);
    size > t.configs[i].max_size
}

/// The paths of the tracked files, in order.
pub fn list(t: &LogTracker) -> (r: Vec<String>)
    ensures
        r@.map_values(|s: String| s@) == t.cfgs().map_values(|c: ConfigModel| c.path),
{
    let mut out: Vec<String> = Vec::new();
    let mut i: usize = 0;
    while i < t.configs.len()
        invariant
            i <= t.configs@.len(),
            out@.map_values(|s: String| s@) == t.cfgs().subrange(0, i as int).map_values(|c: ConfigModel| c.path),
        decreases t.configs@.len() - i,
    {
        let ghost before = out@.map_values(|s: String| s@);
        out.push(t.configs[i].path.clone());
        assert(out@.map_values(|s: String| s@) =~= before.push(t.configs@[i as int].path@));
        i = i + 1;
        assert(t.cfgs().subrange(0, i as int).map_values(|c: ConfigModel| c.path)
            =~= before.push(t.configs@[i - 1].path@));
    }
    assert(t.cfgs().subrange(0, t.configs@.len() as int) =~= t.cfgs());
    out
}

/// Rotate every tracked file: for each, its path and the moves of its
/// rotation, in order.
pub fn rotate_all(t: &mut LogTracker) -> (r: Vec<(String, Vec<(String, String)>)>)
    requires
        old(t).wf(),
        old(t).total_rotations + old(t).configs@.len() <= usize::MAX,
        forall|i: int| 0 <= i < old(t).rotation_counts@.len()
            ==> #[trigger] old(t).rotation_counts@[i] + old(t).configs@.len() <= usize::MAX,
    ensures
        final(t).wf(),
        final(t).configs@ == old(t).configs@,
        r@.len() == old(t).configs@.len(),
        forall|i: int| 0 <= i < r@.len() ==> (#[trigger] r@[i]).0@ == old(t).cfgs()[i].path,
        final(t).total_rotations == old(t).total_rotations + old(t).configs@.len(),
{
    let paths = list(t);
    assert(paths@.map_values(|s: String| s@).len() == paths@.len());
    assert(old(t).cfgs().map_values(|c: ConfigModel| c.path).len() == old(t).cfgs().len());
    let mut out: Vec<(String, Vec<(String, String)>)> = Vec::new();
    let mut k: usize = 0;
    while k < paths.len()
        invariant
            t.wf(),
            t.configs@ == old(t).configs@,
            paths@.map_values(|s: String| s@) == old(t).cfgs().map_values(|c: ConfigModel| c.path),
            paths@.len() == old(t).configs@.len(),
            k <= paths@.len(),
            out@.len() == k,
            forall|i: int| 0 <= i < k ==> (#[trigger] out@[i]).0@ == old(t).cfgs()[i].path,
            t.total_rotations <= old(t).total_rotations + k,
            t.total_rotations + (paths@.len() - k) <= usize::MAX,
            forall|i: int| 0 <= i < t.rotation_counts@.len()
                ==> #[trigger] t.rotation_counts@[i] + (paths@.len() - k) <= usize::MAX,
            t.total_rotations == old(t).total_rotations + k,
        decreases paths@.len() - k,
    {
        let p = string_of(paths[k].as_str());
        assert(paths@.map_values(|s: String| s@)[k as int] == paths@[k as int]@);
        assert(old(t).cfgs().map_values(|c: ConfigModel| c.path)[k as int] == old(t).cfgs()[k as int].path);
        assert(p@ == old(t).cfgs()[k as int].path);
        proof {
            lemma_path_index(t.cfgs(), p@, 0);
            assert(t.cfgs() == old(t).cfgs());
            assert(path_index(t.cfgs(), p@, 0) <= k) by {
                lemma_path_le(t.cfgs(), p@, k as int);
            }
        }
        let m = match rotate(t, p.as_str()) {
            Some(m) => m,
            None => Vec::new(),
        };
        out.push((p, m));
        k = k + 1;
    }
    out
}

proof fn lemma_path_le(cs: Seq<ConfigModel>, p: Seq<char>, k: int)
    requires
        0 <= k < cs.len(),
        cs[k].path == p,
    ensures
        path_index(cs, p, 0) <= k,
{
    lemma_path_index_le(cs, p, 0, k);
}

proof fn lemma_path_index_le(cs: Seq<ConfigModel>, p: Seq<char>, j: int, k: int)
    requires
        0 <= j <= k < cs.len(),
        cs[k].path == p,
    ensures
        path_index(cs, p, j) <= k,
    decreases k - j,
{
    if j < k && cs[j].path != p {
        lemma_path_index_le(cs, p, j + 1, k);
    }
}

/// The rotation count of a file (0 when untracked).
pub fn rotation_count(t: &LogTracker, path: &str) -> (r: usize)
    requires
        t.wf(),
    ensures
        ({
            let i = path_index(t.cfgs(), path@, 0);
            r == if i < t.configs@.len() { t.rotation_counts@[i] } else { 0 }
        }),
{
    let i = find_path(t, path);
    if i < t.rotation_counts.len() { t.rotation_counts[i] } else { 0 }
}

fn set_field(t: &mut LogTracker, path: &str, value: usize, max: bool) -> (r: Result<(), &'static str>)
    requires
        old(t).wf(),
    ensures
        final(t).wf(),
        final(t).current_sizes@ == old(t).current_sizes@,
        final(t).rotation_counts@ == old(t).rotation_counts@,
        final(t).total_rotations == old(t).total_rotations,
        ({
            let i = path_index(old(t).cfgs(), path@, 0);
            if i < old(t).configs@.len() {
                &&& r is Ok
                &&& final(t).cfgs() == old(t).cfgs().update(i, if max {
                        ConfigModel { max_size: value, ..old(t).cfgs()[i] }
                    } else {
                        ConfigModel { keep_count: value, ..old(t).cfgs()[i] }
                    })
            } else {
                r matches Err(e) && e@ == "log_rotate: not found"@ && final(t).cfgs() == old(t).cfgs()
            }
        }),
{
    let i = find_path(t, path);
    if i >= t.configs.len() {
        return Err("log_rotate: not found");
    }
    let ghost before = t.configs@;
    let mut c = t.configs.remove(i);
    if max {
        c.max_size = value;
    } else {
        c.keep_count = value;
    }
    t.configs.insert(i, c);
    assert(t.configs@ =~= before.update(i as int, c));
    assert(t.cfgs() =~= configs_view(before).update(i as int, c.model()));
    Ok(())
}

/// Change the size limit of a file.
pub fn set_max_size(t: &mut LogTracker, path: &str, max_size: usize) -> (r: Result<(), &'static str>)
    requires
        old(t).wf(),
    ensures
        final(t).wf(),
        final(t).current_sizes@ == old(t).current_sizes@,
        final(t).rotation_counts@ == old(t).rotation_counts@,
        final(t).total_rotations == old(t).total_rotations,
        ({
            let i = path_index(old(t).cfgs(), path@, 0);
            if i < old(t).configs@.len() {
                r is Ok && final(t).cfgs() == old(t).cfgs().update(i, ConfigModel { max_size, ..old(t).cfgs()[i] })
            } else {
                r matches Err(e) && e@ == "log_rotate: not found"@ && final(t).cfgs() == old(t).cfgs()
            }
        }),
{
    set_field(t, path, max_size, true)
}

/// Change how many rotated copies of a file are kept.
pub fn set_keep_count(t: &mut LogTracker, path: &str, keep_count: usize) -> (r: Result<(), &'static str>)
    requires
        old(t).wf(),
    ensures
        final(t).wf(),
        final(t).current_sizes@ == old(t).current_sizes@,
        final(t).rotation_counts@ == old(t).rotation_counts@,
        final(t).total_rotations == old(t).total_rotations,
        ({
            let i = path_index(old(t).cfgs(), path@, 0);
            if i < old(t).configs@.len() {
                r is Ok && final(t).cfgs() == old(t).cfgs().update(i, ConfigModel { keep_count, ..old(t).cfgs()[i] })
            } else {
                r matches Err(e) && e@ == "log_rotate: not found"@ && final(t).cfgs() == old(t).cfgs()
            }
        }),
{
    set_field(t, path, keep_count, false)
}

/// One line of the status report.
pub open spec fn status_line(c: ConfigModel, size: usize, rotations: usize) -> Seq<char> {
    let pct: nat = if c.max_size > 0 { (size * 100) as nat / c.max_size as nat } else { 0 };
    "  "@ + c.path + " — "@ + dec(size as nat) + "/"@ + dec(c.max_size as nat) + " bytes ("@ + dec(pct) + "%) — "@
        + dec(rotations as nat) + " rotations — keep "@ + dec(c.keep_count as nat) + "\n"@
}

pub open spec fn status_lines(cs: Seq<ConfigModel>, sizes: Seq<usize>, rots: Seq<usize>) -> Seq<char>
    decreases cs.len(),
{
    if cs.len() == 0 {
        Seq::empty()
    } else {
        let i = cs.len() - 1;
        status_lines(cs.drop_last(), sizes, rots) + status_line(cs.last(), sizes[i], rots[i])
    }
}

fn push_status_line(out: &mut String, c: &RotateConfig, size: usize, rotations: usize)
    requires
        size * 100 <= usize::MAX,
    ensures
        final(out)@ == old(out)@ + status_line(c.model(), size, rotations),
{
    let pct: usize = if c.max_size > 0 { (size * 100) / c.max_size } else { 0 };
    out.append("  ");
    out.append(c.path.as_str());
    out.append(" — ");
    push_dec(out, size as u64);
    out.append("/");
    push_dec(out, c.max_size as u64);
    out.append(" bytes (");
    push_dec(out, pct as u64);
    out.append("%) — ");
    push_dec(out, rotations as u64);
    out.append(" rotations — keep ");
    push_dec(out, c.keep_count as u64);
    out.append("\n");
    assert(final(out)@ =~= old(out)@ + status_line(c.model(), size, rotations));
}

/// The status report.
pub open spec fn status_text(t: LogTracker) -> Seq<char> {
    "Log rotation status:\n"@ + status_lines(t.cfgs(), t.current_sizes@, t.rotation_counts@)
        + "Total rotations: "@ + dec(t.total_rotations as nat) + "\n"@
}

/// The size, limit, fill percentage, rotations and copies kept of every
/// tracked file, and the total rotations.
pub fn status(t: &LogTracker) -> (out: String)
    requires
        t.wf(),
        forall|i: int| 0 <= i < t.current_sizes@.len() ==> #[trigger] t.current_sizes@[i] * 100 <= usize::MAX,
    ensures
        out@ == status_text(*t),
{
    let mut out = string_of("Log rotation status:\n");
    let ghost head = out@;
    let mut i: usize = 0;
    while i < t.configs.len()
        invariant
            t.wf(),
            forall|k: int| 0 <= k < t.current_sizes@.len() ==> #[trigger] t.current_sizes@[k] * 100 <= usize::MAX,
            i <= t.configs@.len(),
            out@ == head + status_lines(t.cfgs().subrange(0, i as int), t.current_sizes@, t.rotation_counts@),
        decreases t.configs@.len() - i,
    {
        let ghost pre = t.cfgs().subrange(0, i + 1);
        assert(pre.drop_last() =~= t.cfgs().subrange(0, i as int));
        assert(pre.last() == t.configs@[i as int].model());
        push_status_line(&mut out, &t.configs[i], t.current_sizes[i], t.rotation_counts[i]);
        i = i + 1;
    }
    assert(t.cfgs().subrange(0, t.configs@.len() as int) =~= t.cfgs());
    out.append("Total rotations: ");
    push_dec(&mut out, t.total_rotations as u64);
    out.append("\n");
    out
}

// ---------------------------------------------------------------------------
// Laws
// ---------------------------------------------------------------------------

/// A rotation keeping `keep` copies moves each copy one number up, the
/// highest first, so that no copy is overwritten before it has moved:
/// the `j`-th move takes `path.(keep-1-j)` to `path.(keep-j)`.
pub proof fn law_shift_moves(path: Seq<char>, keep: nat)
    requires
        keep >= 1,
    ensures
        shift_moves(path, keep).len() == keep - 1,
        forall|j: int| 0 <= j < keep - 1 ==> #[trigger] shift_moves(path, keep)[j]
            == (numbered(path, (keep - 1 - j) as nat), numbered(path, (keep - j) as nat)),
    decreases keep,
{
    if keep > 1 {
        law_shift_moves(path, (keep - 1) as nat);
        let m = shift_moves(path, keep);
        let rest = shift_moves(path, (keep - 1) as nat);
        assert forall|j: int| 0 <= j < keep - 1 implies #[trigger] m[j]
            == (numbered(path, (keep - 1 - j) as nat), numbered(path, (keep - j) as nat)) by {
            if j > 0 {
                assert(m[j] == rest[j - 1]);
            }
        }
    }
}

/// After a rotation the file starts empty, its count of rotations is one
/// higher, and an append that stays within the limit does not rotate it
/// again.
pub proof fn law_rotation_resets(t: LogTracker, i: int, len: usize)
    requires
        t.wf(),
        0 <= i < t.configs@.len(),
        t.rotation_counts@[i] < usize::MAX,
        t.total_rotations < usize::MAX,
        len <= t.cfgs()[i].max_size,
    ensures
        rotated(t, i).0[i] == 0,
        rotated(t, i).1[i] == t.rotation_counts@[i] + 1,
        rotated(t, i).2 == t.total_rotations + 1,
        !(((rotated(t, i).0[i] + len) as usize) > t.cfgs()[i].max_size),
{
}

} // verus!
