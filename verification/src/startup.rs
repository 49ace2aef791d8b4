//! Starting up: one launcher at a time, and a cache that is good enough.
use crate::numbers::{
    decimal, decimal_text, is_digit, law_decimal_reads_back, law_numbers_are_read, lemma_decimal,
    lemma_decimal_trimmed, parse_u32, read_unsigned,
};
use crate::text::{
    chars_of, is_space, law_trimming_takes_the_margins, opt_str, same_text, trim_chars, trimmed,
    Margin,
};
use vstd::prelude::*;

verus! {

// ---- One at a time ----------------------------------------------------------

/// The process id that the text of a pid file names, if it names one.
pub open spec fn pid_in(text: Option<Seq<char>>) -> Option<int> {
    match text {
        Some(t) => read_unsigned(trimmed(t), u32::MAX as int),
        None => None,
    }
}

/// Reads the process id from a pid file; there is none where the file could not
/// be read.
pub fn recorded_pid(text: Option<&str>) -> (r: Option<u32>)
    ensures
        match r {
            Some(p) => pid_in(opt_str(text)) == Some(p as int),
            None => pid_in(opt_str(text)) is None,
        },
{
    match text {
        Some(t) => {
            let s = chars_of(t);
            parse_u32(trim_chars(s.as_slice(), Margin::Space))
        },
        None => None,
    }
}

/// What a new launcher does about one that may be running.
#[derive(Debug, Clone, Copy, PartialEq, Eq, Structural)]
pub enum Toggle {
    /// Kill the running one, and exit.
    Kill(u32),
    /// Record its own process id, and go on.
    Continue,
}

/// What a new launcher does where `recorded` is the process id on record and
/// `alive` tells whether that process exists.
pub open spec fn toggled(recorded: Option<u32>, alive: bool) -> Toggle {
    match recorded {
        Some(p) => if alive {
            Toggle::Kill(p)
        } else {
            Toggle::Continue
        },
        None => Toggle::Continue,
    }
}

/// Decides between dismissing a running launcher and starting a new one.
/// `recorded` is the process id on record, `alive` whether that process exists.
pub fn toggle_or_continue(recorded: Option<u32>, alive: bool) -> (r: Toggle)
    ensures
        r == toggled(recorded, alive),
{
    match recorded {
        Some(p) => if alive {
            Toggle::Kill(p)
        } else {
            Toggle::Continue
        },
        None => Toggle::Continue,
    }
}

/// The text of the pid file of the process `pid`.
pub fn pid_text(pid: u32) -> (r: String)
    ensures
        r@ == decimal(pid as nat),
        pid_in(Some(r@)) == Some(pid as int),
{
    proof {
        law_pid_reads_back(pid);
    }
    decimal_text(pid as u64)
}

/// What came of asking for the lock that only one overlay holds.
#[derive(Debug, Clone, Copy, PartialEq, Eq, Structural)]
pub enum Lock {
    /// It was not asked for.
    NotAsked,
    /// It is held.
    Held,
    /// Another overlay held it, and was killed.
    KilledExisting,
    /// It could not be had.
    Unavailable,
}

/// Whether a run asks for the lock: one that captures the window leaves a running
/// overlay alone.
pub fn takes_lock(capturing: bool) -> (r: bool)
    ensures
        r == !capturing,
{
    !capturing
}

/// Whether a run goes on to open its window: it does unless it killed a running
/// overlay.
pub fn goes_on(lock: Lock) -> (r: bool)
    ensures
        r == (lock !is KilledExisting),
{
    match lock {
        Lock::KilledExisting => false,
        Lock::NotAsked | Lock::Held | Lock::Unavailable => true,
    }
}

// ---- The cache --------------------------------------------------------------

/// Whether the run is only there to rebuild the cache, from
/// `$BREADBOX_REBUILD_ONLY`.
pub fn is_rebuild_only(value: Option<&str>) -> (r: bool)
    ensures
        r == (opt_str(value) == Some("1"@)),
{
    match value {
        Some(v) => same_text(v, "1"),
        None => false,
    }
}

/// What to do about the cache before the entries are read from it.
#[derive(Debug, Clone, Copy, PartialEq, Eq, Structural)]
pub enum CacheStep {
    /// Build it now.
    Build,
    /// Have another process rebuild it, and use it as it is meanwhile.
    Refresh,
    /// Use it as it is.
    Keep,
}

/// Decides what to do about the cache.
pub fn cache_step(exists: bool, fresh: bool) -> (r: CacheStep)
    ensures
        r == (if !exists {
            CacheStep::Build
        } else if !fresh {
            CacheStep::Refresh
        } else {
            CacheStep::Keep
        }),
{
    if !exists {
        CacheStep::Build
    } else if !fresh {
        CacheStep::Refresh
    } else {
        CacheStep::Keep
    }
}

// ---- Laws -------------------------------------------------------------------

/// The process id that a launcher records is the one that the next one reads.
pub proof fn law_pid_reads_back(pid: u32)
    ensures
        pid_in(Some(decimal(pid as nat))) == Some(pid as int),
{
    lemma_decimal_trimmed(pid as nat);
    law_decimal_reads_back(pid as nat, u32::MAX as int);
}

/// A second launcher kills the first: whatever it reads from the pid file that a
/// running launcher wrote makes it kill that launcher and no other process.
pub proof fn law_second_launcher_kills_the_first(pid: u32, recorded: Option<u32>)
    requires
        match recorded {
            Some(p) => pid_in(Some(decimal(pid as nat))) == Some(p as int),
            None => pid_in(Some(decimal(pid as nat))) is None,
        },
    ensures
        toggled(recorded, true) == Toggle::Kill(pid),
        toggled(recorded, false) == Toggle::Continue,
{
    law_pid_reads_back(pid);
}

/// A pid file is read with white space around the number or without; one that
/// holds anything else, or that could not be read, names no process.
pub proof fn law_pid_files_are_read(
    pid: nat,
    before: Seq<char>,
    behind: Seq<char>,
    other: Seq<char>,
)
    requires
        forall|k: int| 0 <= k < before.len() ==> is_space(#[trigger] before[k]),
        forall|k: int| 0 <= k < behind.len() ==> is_space(#[trigger] behind[k]),
    ensures
        pid <= 0xffff_ffff ==> pid_in(Some(before + decimal(pid) + behind)) == Some(pid as int),
        pid > 0xffff_ffff ==> pid_in(Some(before + decimal(pid) + behind)) is None,
        pid_in(Some(before)) is None,
        pid_in(None) is None,
        other.len() > 0 && !is_space(other[0]) && !is_space(other.last()) ==> pid_in(
            Some(before + other + behind),
        ) == read_unsigned(other, 0xffff_ffff),
        other.len() > 0 && !is_space(other[0]) && !is_space(other.last()) && (exists|k: int|
            0 < k < other.len() && !('0' <= #[trigger] other[k] <= '9')) ==> pid_in(
            Some(before + other + behind),
        ) is None,
        other.len() > 0 && !is_space(other[0]) && !is_space(other.last()) && other[0] != '+' && !(
        '0' <= other[0] <= '9') ==> pid_in(Some(before + other + behind)) is None,
{
    lemma_decimal(pid);
    let d = decimal(pid);
    assert(is_digit(d[0]));
    assert(is_digit(d[d.len() - 1]));
    law_trimming_takes_the_margins(before, d, behind, Margin::Space);
    law_trimming_takes_the_margins(before, seq![], seq![], Margin::Space);
    assert(before + Seq::<char>::empty() + Seq::<char>::empty() =~= before);
    law_numbers_are_read(pid, u32::MAX as int, other);
    law_numbers_are_read(pid, u32::MAX as int, seq![]);
    if other.len() > 0 && !is_space(other[0]) && !is_space(other.last()) {
        law_trimming_takes_the_margins(before, other, behind, Margin::Space);
    }
}

}
